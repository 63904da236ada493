//! Joining bit sequences, and the wire format that carries one as bytes: the
//! bits packed most significant bit first, then one byte that counts the
//! padding bits of the last packed byte.

use crate::bits::{
    bit_or_zero, bit_seq, bits_extend, bits_from_bytes, bits_get, bits_len, bits_pop, bits_set,
    bits_to_bytes, bits_truncate, byte_bit, pack_bits, packed_byte, unpack_bytes,
};
use crate::error::DecodeError;
use bit_vec::BitVec;
use vstd::prelude::*;
use vstd::slice::slice_subrange;

verus! {

/// How many bits pad a sequence of `n` bits to a whole number of bytes.
pub open spec fn pad_count(n: nat) -> nat {
    if n % 8 == 0 {
        0
    } else {
        (8 - n % 8) as nat
    }
}

/// The wire form of a bit sequence: its packed bytes, then the padding count.
pub open spec fn wire_bytes(bits: Seq<bool>) -> Seq<u8> {
    pack_bits(bits).push(pad_count(bits.len()) as u8)
}

/// The bit sequence that a wire form carries: the bits of all bytes but the
/// last, without as many trailing bits as the last byte says. An empty input,
/// or a count larger than the number of bits, is an error.
pub open spec fn wire_bits(bytes: Seq<u8>) -> Result<Seq<bool>, DecodeError> {
    if bytes.len() == 0 {
        Err(DecodeError::UnexpectedEndOfInput)
    } else {
        let payload = unpack_bytes(bytes.drop_last());
        let pad = bytes.last() as int;
        if pad > payload.len() {
            Err(DecodeError::UnexpectedEndOfInput)
        } else {
            Ok(payload.take(payload.len() - pad))
        }
    }
}

/// Reading bit `j` of a packed byte gives back the bit that was packed there.
pub proof fn lemma_byte_bit_of_packed(bits: Seq<bool>, k: int, j: int)
    requires
        0 <= j < 8,
    ensures
        byte_bit(packed_byte(bits, k), j) == (bit_or_zero(bits, 8 * k + j) == 1),
{
    let b0 = bit_or_zero(bits, 8 * k);
    let b1 = bit_or_zero(bits, 8 * k + 1);
    let b2 = bit_or_zero(bits, 8 * k + 2);
    let b3 = bit_or_zero(bits, 8 * k + 3);
    let b4 = bit_or_zero(bits, 8 * k + 4);
    let b5 = bit_or_zero(bits, 8 * k + 5);
    let b6 = bit_or_zero(bits, 8 * k + 6);
    let b7 = bit_or_zero(bits, 8 * k + 7);
    let v = 128 * b0 + 64 * b1 + 32 * b2 + 16 * b3 + 8 * b4 + 4 * b5 + 2 * b6 + b7;
    assert(0 <= v < 256);
    assert(packed_byte(bits, k) as int == v);
}

/// Unpacking the packed form of a bit sequence gives the sequence back, followed
/// by the cleared padding bits.
pub proof fn lemma_unpack_pack(bits: Seq<bool>)
    ensures
        unpack_bytes(pack_bits(bits)).len() == bits.len() + pad_count(bits.len()),
        unpack_bytes(pack_bits(bits)).take(bits.len() as int) == bits,
{
    let packed = pack_bits(bits);
    let unpacked = unpack_bytes(packed);
    assert forall|i: int| 0 <= i < bits.len() implies unpacked[i] == bits[i] by {
        lemma_byte_bit_of_packed(bits, i / 8, i % 8);
    }
    assert(unpacked.take(bits.len() as int) =~= bits);
}

/// The wire format loses nothing: reading back what was written gives the same
/// bit sequence, whatever its length.
pub proof fn lemma_wire_round_trip(bits: Seq<bool>)
    ensures
        wire_bits(wire_bytes(bits)) == Ok::<Seq<bool>, DecodeError>(bits),
{
    lemma_unpack_pack(bits);
    assert(wire_bytes(bits).drop_last() =~= pack_bits(bits));
}

/// Appends the bits of `b` to `a`. Both together must not hold more than
/// `usize::MAX` bits.
pub fn append_bit_vec(a: BitVec, b: &BitVec) -> (joined: BitVec)
    requires
        bit_seq(a).len() + bit_seq(*b).len() <= usize::MAX,
    ensures
        bit_seq(joined) == bit_seq(a) + bit_seq(*b),
{
    let mut a = a;
    bits_extend(&mut a, b);
    a
}

/// Writes a bit sequence in the wire format.
pub fn serialize_bit_vec(x: &BitVec) -> (bytes: Vec<u8>)
    ensures
        bytes@ == wire_bytes(bit_seq(*x)),
{
    let modulo: usize = bits_len(x) % 8;
    let mut output = bits_to_bytes(x);
    let pad: u8 = if modulo == 0 {
        0
    } else {
        (8 - modulo) as u8
    };
    output.push(pad);
    output
}

/// Reads a bit sequence from the wire format. The bits are counted in a
/// `usize`, so the input may hold `usize::MAX / 8` bytes before its last one at
/// most.
pub fn deserialize_bit_vec(x: &[u8]) -> (bits: Result<BitVec, DecodeError>)
    requires
        8 * (x@.len() - 1) <= usize::MAX,
    ensures
        match bits {
            Ok(v) => wire_bits(x@) == Ok::<Seq<bool>, DecodeError>(bit_seq(v)),
            Err(e) => wire_bits(x@) == Err::<Seq<bool>, DecodeError>(e),
        },
{
    let n = x.len();
    if n == 0 {
        return Err(DecodeError::UnexpectedEndOfInput);
    }
    let payload = slice_subrange(x, 0, n - 1);
    assert(payload@ =~= x@.drop_last());
    let mut bits = bits_from_bytes(payload);
    let ghost unpacked = bit_seq(bits);
    let len = bits_len(&bits);
    let pad = x[n - 1] as usize;
    if pad > len {
        return Err(DecodeError::UnexpectedEndOfInput);
    }
    bits_truncate(&mut bits, len - pad);
    assert(bit_seq(bits) =~= unpacked.take(len - pad));
    Ok(bits)
}

/// Removes the first bit; an empty sequence stays empty.
pub fn pop_front_bit_vec(to_pop: BitVec) -> (rest: BitVec)
    ensures
        bit_seq(rest) == (if bit_seq(to_pop).len() > 0 {
            bit_seq(to_pop).skip(1)
        } else {
            bit_seq(to_pop)
        }),
{
    let ghost before = bit_seq(to_pop);
    let mut to_pop = to_pop;
    let n = bits_len(&to_pop);
    if n == 0 {
        return to_pop;
    }
    let mut i: usize = 0;
    while i < n - 1
        invariant
            n == before.len(),
            n > 0,
            i <= n - 1,
            bit_seq(to_pop).len() == n,
            forall|k: int| 0 <= k < i ==> bit_seq(to_pop)[k] == before[k + 1],
            forall|k: int| i <= k < n ==> bit_seq(to_pop)[k] == before[k],
        decreases n - i,
    {
        let next = bits_get(&to_pop, i + 1);
        match next {
            Some(bit) => {
                bits_set(&mut to_pop, i, bit);
            },
            None => {},
        }
        i = i + 1;
    }
    let _ = bits_pop(&mut to_pop);
    assert(bit_seq(to_pop) =~= before.skip(1));
    to_pop
}

} // verus!
