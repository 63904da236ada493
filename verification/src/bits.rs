//! The bit sequence of this library is `bit_vec::BitVec`, and a cursor over one
//! is `bit_vec::Iter`. Both are opaque to the verifier. This module names what
//! they hold and states, for each method the library calls, what the method does
//! to those contents. Nothing here is proved: the contracts are read off the
//! `bit-vec` sources.

use bit_vec::BitVec;
use bit_vec::Iter;
use vstd::prelude::*;

verus! {

#[verifier::external_type_specification]
#[verifier::external_body]
#[verifier::reject_recursive_types(B)]
pub struct ExBitVec<B>(BitVec<B>);

#[verifier::external_type_specification]
#[verifier::external_body]
#[verifier::reject_recursive_types(B)]
pub struct ExIter<'a, B: 'a>(Iter<'a, B>);

/// The bits a `BitVec` holds, first bit first.
pub uninterp spec fn bit_seq(v: BitVec<u32>) -> Seq<bool>;

/// The bits a cursor has not handed out yet, next bit first.
pub uninterp spec fn unread(it: Iter<'_, u32>) -> Seq<bool>;

/// Bit `i` of `bits` as a number, where every position past the end counts as a
/// cleared bit.
pub open spec fn bit_or_zero(bits: Seq<bool>, i: int) -> int {
    if 0 <= i < bits.len() && bits[i] {
        1
    } else {
        0
    }
}

/// Byte `k` of the packed form of `bits`: bits `8k .. 8k + 8`, the first of them
/// in the most significant place, missing bits cleared.
pub open spec fn packed_byte(bits: Seq<bool>, k: int) -> u8 {
    (128 * bit_or_zero(bits, 8 * k) + 64 * bit_or_zero(bits, 8 * k + 1) + 32 * bit_or_zero(
        bits,
        8 * k + 2,
    ) + 16 * bit_or_zero(bits, 8 * k + 3) + 8 * bit_or_zero(bits, 8 * k + 4) + 4 * bit_or_zero(
        bits,
        8 * k + 5,
    ) + 2 * bit_or_zero(bits, 8 * k + 6) + bit_or_zero(bits, 8 * k + 7)) as u8
}

/// `bits` packed into bytes, most significant bit first, the last byte padded
/// with cleared bits.
pub open spec fn pack_bits(bits: Seq<bool>) -> Seq<u8> {
    Seq::new(((bits.len() + 7) / 8) as nat, |k: int| packed_byte(bits, k))
}

/// The weight of bit `j` of a byte, counting from the most significant bit.
pub open spec fn bit_weight(j: int) -> int {
    if j == 0 {
        128
    } else if j == 1 {
        64
    } else if j == 2 {
        32
    } else if j == 3 {
        16
    } else if j == 4 {
        8
    } else if j == 5 {
        4
    } else if j == 6 {
        2
    } else {
        1
    }
}

/// Whether bit `j` of `byte` is set, counting from the most significant bit.
pub open spec fn byte_bit(byte: u8, j: int) -> bool {
    (byte as int / bit_weight(j)) % 2 == 1
}

/// The bits of `bytes`: eight per byte, most significant bit first.
pub open spec fn unpack_bytes(bytes: Seq<u8>) -> Seq<bool> {
    Seq::new(8 * bytes.len(), |i: int| byte_bit(bytes[i / 8], i % 8))
}

/// `BitVec::new`: the result holds no bit.
#[verifier::external_body]
pub(crate) fn bits_new() -> (v: BitVec<u32>)
    ensures
        bit_seq(v) == Seq::<bool>::empty(),
{
    BitVec::new()
}

/// `BitVec::push`: the bit is added at the end. The method panics when the
/// length would pass `usize::MAX`, so that case is left out.
#[verifier::external_body]
pub(crate) fn bits_push(v: &mut BitVec<u32>, bit: bool)
    requires
        bit_seq(*old(v)).len() < usize::MAX,
    ensures
        bit_seq(*final(v)) == bit_seq(*old(v)).push(bit),
{
    v.push(bit)
}

/// `BitVec::len`: the number of bits held.
#[verifier::external_body]
pub(crate) fn bits_len(v: &BitVec<u32>) -> (n: usize)
    ensures
        n == bit_seq(*v).len(),
{
    v.len()
}

/// `BitVec::get`: the bit at `i`, or `None` past the end.
#[verifier::external_body]
pub(crate) fn bits_get(v: &BitVec<u32>, i: usize) -> (bit: Option<bool>)
    ensures
        bit == (if i < bit_seq(*v).len() {
            Some(bit_seq(*v)[i as int])
        } else {
            None::<bool>
        }),
{
    v.get(i)
}

/// `BitVec::set`: the bit at `i` is replaced. The method panics past the end,
/// so that case is left out.
#[verifier::external_body]
pub(crate) fn bits_set(v: &mut BitVec<u32>, i: usize, bit: bool)
    requires
        i < bit_seq(*old(v)).len(),
    ensures
        bit_seq(*final(v)) == bit_seq(*old(v)).update(i as int, bit),
{
    v.set(i, bit)
}

/// `BitVec::pop`: the last bit is removed and returned; an empty vector stays
/// empty and gives `None`.
#[verifier::external_body]
pub(crate) fn bits_pop(v: &mut BitVec<u32>) -> (bit: Option<bool>)
    ensures
        bit == (if bit_seq(*old(v)).len() > 0 {
            Some(bit_seq(*old(v)).last())
        } else {
            None::<bool>
        }),
        bit_seq(*final(v)) == (if bit_seq(*old(v)).len() > 0 {
            bit_seq(*old(v)).drop_last()
        } else {
            bit_seq(*old(v))
        }),
{
    v.pop()
}

/// `BitVec::truncate`: only the first `len` bits stay; a `len` at or past the
/// current length changes nothing.
#[verifier::external_body]
pub(crate) fn bits_truncate(v: &mut BitVec<u32>, len: usize)
    ensures
        bit_seq(*final(v)) == (if len < bit_seq(*old(v)).len() {
            bit_seq(*old(v)).take(len as int)
        } else {
            bit_seq(*old(v))
        }),
{
    v.truncate(len)
}

/// `Extend::extend` of `BitVec`, fed from `BitVec::iter`: the bits of `tail` are
/// pushed in order. It reserves and pushes, both of which panic when the length
/// would pass `usize::MAX`, so that case is left out.
#[verifier::external_body]
pub(crate) fn bits_extend(v: &mut BitVec<u32>, tail: &BitVec<u32>)
    requires
        bit_seq(*old(v)).len() + bit_seq(*tail).len() <= usize::MAX,
    ensures
        bit_seq(*final(v)) == bit_seq(*old(v)) + bit_seq(*tail),
{
    v.extend(tail.iter())
}

/// `Clone::clone` of `BitVec`: the copy holds the same bits.
#[verifier::external_body]
pub(crate) fn bits_clone(v: &BitVec<u32>) -> (copy: BitVec<u32>)
    ensures
        bit_seq(copy) == bit_seq(*v),
{
    v.clone()
}

/// `BitVec::to_bytes`: the first bit becomes the high-order bit of the first
/// byte, and trailing bits of the last byte are cleared.
#[verifier::external_body]
pub(crate) fn bits_to_bytes(v: &BitVec<u32>) -> (bytes: Vec<u8>)
    ensures
        bytes@ == pack_bits(bit_seq(*v)),
{
    v.to_bytes()
}

/// `BitVec::from_bytes`: each byte becomes eight bits, most significant first.
/// The method panics when eight times the length overflows, so that case is
/// left out.
#[verifier::external_body]
pub(crate) fn bits_from_bytes(bytes: &[u8]) -> (v: BitVec<u32>)
    requires
        8 * bytes@.len() <= usize::MAX,
    ensures
        bit_seq(v) == unpack_bytes(bytes@),
{
    BitVec::from_bytes(bytes)
}

/// `BitVec::iter`: a cursor that stands before the first bit.
#[verifier::external_body]
pub(crate) fn bits_iter<'a>(v: &'a BitVec<u32>) -> (it: Iter<'a, u32>)
    ensures
        unread(it) == bit_seq(*v),
{
    v.iter()
}

/// `Iterator::next` of `Iter`: the next bit is handed out and leaves the cursor;
/// at the end the cursor gives `None` and stays at the end.
#[verifier::external_body]
pub(crate) fn iter_next(it: &mut Iter<'_, u32>) -> (bit: Option<bool>)
    ensures
        bit == (if unread(*old(it)).len() > 0 {
            Some(unread(*old(it))[0])
        } else {
            None::<bool>
        }),
        unread(*final(it)) == (if unread(*old(it)).len() > 0 {
            unread(*old(it)).skip(1)
        } else {
            unread(*old(it))
        }),
{
    it.next()
}

} // verus!
