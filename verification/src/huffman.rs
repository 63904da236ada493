//! Prefix-code trees: their bit encoding and the codes of their leaves.

use crate::bits::{
    bit_seq, bits_from_bytes, bits_new, bits_push, byte_bit, iter_next, unpack_bytes, unread,
};
use crate::bitvec_util::append_bit_vec;
use crate::error::DecodeError;
use bit_vec::BitVec;
use bit_vec::Iter;
use vstd::arithmetic::power2::{lemma2_to64, lemma2_to64_rest, lemma_pow2_unfold, pow2};
use vstd::prelude::*;

verus! {

/// A prefix-code tree. The path from the root to a leaf, `false` for left and
/// `true` for right, is the code of the leaf's symbol.
#[derive(Debug)]
pub enum Node<T> {
    Leaf(T),
    Branch(Box<Node<T>>, Box<Node<T>>),
}

/// The number that `bits` spell, most significant bit first.
pub open spec fn bits_value(bits: Seq<bool>) -> nat
    decreases bits.len(),
{
    if bits.len() == 0 {
        0
    } else {
        2 * bits_value(bits.drop_last()) + (if bits.last() {
            1nat
        } else {
            0nat
        })
    }
}

/// A symbol type that has a bit pattern of fixed width.
pub trait IntoBitVec: Sized {
    /// Number of bits in the pattern of every symbol.
    spec fn bit_width() -> nat;

    /// The pattern of this symbol.
    spec fn to_bits(&self) -> Seq<bool>;

    /// Every pattern has the fixed width.
    proof fn lemma_to_bits_len(&self)
        ensures
            self.to_bits().len() == Self::bit_width(),
    ;

    /// Writes the pattern of this symbol.
    fn encode(&self) -> (bits: BitVec)
        ensures
            bit_seq(bits) == self.to_bits(),
    ;
}

/// A symbol type that can be read back from a bit pattern of fixed width.
pub trait FromBitVec: Sized {
    /// Number of bits that a symbol is read from.
    spec fn pattern_width() -> nat;

    /// The symbol that a pattern of the fixed width stands for.
    spec fn from_bits(bits: Seq<bool>) -> Self;

    /// Reads one symbol. With fewer bits left than the width, that is an error
    /// and the cursor is left at the end.
    fn decode(iter: &mut Iter) -> (symbol: Result<Self, DecodeError>)
        ensures
            match symbol {
                Ok(s) => {
                    &&& unread(*old(iter)).len() >= Self::pattern_width()
                    &&& s == Self::from_bits(unread(*old(iter)).take(Self::pattern_width() as int))
                    &&& unread(*final(iter)) == unread(*old(iter)).skip(
                        Self::pattern_width() as int,
                    )
                },
                Err(e) => {
                    &&& e == DecodeError::IncompleteSymbol
                    &&& unread(*old(iter)).len() < Self::pattern_width()
                    &&& unread(*final(iter)).len() == 0
                },
            },
    ;
}

impl IntoBitVec for u8 {
    open spec fn bit_width() -> nat {
        8
    }

    open spec fn to_bits(&self) -> Seq<bool> {
        unpack_bytes(seq![*self])
    }

    proof fn lemma_to_bits_len(&self) {
    }

    fn encode(&self) -> (bits: BitVec) {
        let bytes: Vec<u8> = vec![*self];
        assert(bytes@ =~= seq![*self]);
        bits_from_bytes(bytes.as_slice())
    }
}

/// The number that `bits` spell is below two to the number of bits.
pub proof fn lemma_bits_value_bound(bits: Seq<bool>)
    ensures
        bits_value(bits) < pow2(bits.len()),
    decreases bits.len(),
{
    if bits.len() == 0 {
        lemma2_to64();
    } else {
        lemma_bits_value_bound(bits.drop_last());
        lemma_pow2_unfold(bits.len());
    }
}

/// Spelling `head` and then `tail` shifts the number of `head` left by the
/// length of `tail` and adds the number of `tail`.
pub proof fn lemma_bits_value_concat(head: Seq<bool>, tail: Seq<bool>)
    ensures
        bits_value(head + tail) == bits_value(head) * pow2(tail.len()) + bits_value(tail),
    decreases tail.len(),
{
    if tail.len() == 0 {
        lemma2_to64();
        assert(head + tail =~= head);
    } else {
        lemma_bits_value_concat(head, tail.drop_last());
        assert((head + tail).drop_last() =~= head + tail.drop_last());
        lemma_pow2_unfold(tail.len());
        let h = bits_value(head);
        let p = pow2((tail.len() - 1) as nat);
        assert(2 * (h * p) == h * (2 * p)) by (nonlinear_arith);
    }
}

/// The eight bits of a byte spell the byte.
pub proof fn lemma_bits_value_of_byte(byte: u8)
    ensures
        bits_value(unpack_bytes(seq![byte])) == byte,
{
    let s8 = unpack_bytes(seq![byte]);
    let s7 = s8.drop_last();
    let s6 = s7.drop_last();
    let s5 = s6.drop_last();
    let s4 = s5.drop_last();
    let s3 = s4.drop_last();
    let s2 = s3.drop_last();
    let s1 = s2.drop_last();
    let s0 = s1.drop_last();
    let b = byte as int;
    assert(bits_value(s0) == 0);
    assert(s1.last() == byte_bit(byte, 0));
    assert(bits_value(s1) == b / 128);
    assert(s2.last() == byte_bit(byte, 1));
    assert(bits_value(s2) == b / 64);
    assert(s3.last() == byte_bit(byte, 2));
    assert(bits_value(s3) == b / 32);
    assert(s4.last() == byte_bit(byte, 3));
    assert(bits_value(s4) == b / 16);
    assert(s5.last() == byte_bit(byte, 4));
    assert(bits_value(s5) == b / 8);
    assert(s6.last() == byte_bit(byte, 5));
    assert(bits_value(s6) == b / 4);
    assert(s7.last() == byte_bit(byte, 6));
    assert(bits_value(s7) == b / 2);
    assert(s8.last() == byte_bit(byte, 7));
    assert(bits_value(s8) == b);
}

/// The number that `bytes` spell in base 256, most significant byte first.
pub open spec fn bytes_value(bytes: Seq<u8>) -> nat
    decreases bytes.len(),
{
    if bytes.len() == 0 {
        0
    } else {
        256 * bytes_value(bytes.drop_last()) + bytes.last() as nat
    }
}

/// The bits of a byte sequence spell the same number as the bytes.
pub proof fn lemma_bits_value_of_bytes(bytes: Seq<u8>)
    ensures
        bits_value(unpack_bytes(bytes)) == bytes_value(bytes),
    decreases bytes.len(),
{
    if bytes.len() == 0 {
        assert(unpack_bytes(bytes) =~= Seq::<bool>::empty());
    } else {
        let head = bytes.drop_last();
        let tail = seq![bytes.last()];
        lemma_bits_value_of_bytes(head);
        lemma_bits_value_of_byte(bytes.last());
        assert(unpack_bytes(bytes) =~= unpack_bytes(head) + unpack_bytes(tail));
        lemma_bits_value_concat(unpack_bytes(head), unpack_bytes(tail));
        lemma2_to64();
    }
}

/// The eight bytes of a 64-bit number, most significant byte first.
pub open spec fn u64_be_bytes(x: u64) -> Seq<u8> {
    seq![
        ((x as int / 0x100_0000_0000_0000) % 256) as u8,
        ((x as int / 0x1_0000_0000_0000) % 256) as u8,
        ((x as int / 0x100_0000_0000) % 256) as u8,
        ((x as int / 0x1_0000_0000) % 256) as u8,
        ((x as int / 0x100_0000) % 256) as u8,
        ((x as int / 0x1_0000) % 256) as u8,
        ((x as int / 0x100) % 256) as u8,
        (x as int % 256) as u8,
    ]
}

/// One step of writing a number in base 256: the digit at place value `d`
/// joins the digits above it.
proof fn lemma_base256_step(v: int, d: int)
    requires
        v >= 0,
        d > 0,
    ensures
        256 * (v / (256 * d)) + (v / d) % 256 == v / d,
{
    vstd::arithmetic::div_mod::lemma_div_denominator(v, d, 256);
    vstd::arithmetic::div_mod::lemma_fundamental_div_mod(v / d, 256);
    assert(d * 256 == 256 * d);
}

/// The eight bytes of a 64-bit number spell the number.
pub proof fn lemma_bytes_value_of_u64(x: u64)
    ensures
        bytes_value(u64_be_bytes(x)) == x,
{
    let s8 = u64_be_bytes(x);
    let s7 = s8.drop_last();
    let s6 = s7.drop_last();
    let s5 = s6.drop_last();
    let s4 = s5.drop_last();
    let s3 = s4.drop_last();
    let s2 = s3.drop_last();
    let s1 = s2.drop_last();
    let s0 = s1.drop_last();
    let v = x as int;
    assert(bytes_value(s0) == 0);
    assert(s1.last() == s8[0]);
    assert(bytes_value(s1) == v / 0x100_0000_0000_0000);
    assert(s2.last() == s8[1]);
    assert(bytes_value(s2) == v / 0x1_0000_0000_0000) by {
        lemma_base256_step(v, 0x1_0000_0000_0000);
    }
    assert(s3.last() == s8[2]);
    assert(bytes_value(s3) == v / 0x100_0000_0000) by {
        lemma_base256_step(v, 0x100_0000_0000);
    }
    assert(s4.last() == s8[3]);
    assert(bytes_value(s4) == v / 0x1_0000_0000) by {
        lemma_base256_step(v, 0x1_0000_0000);
    }
    assert(s5.last() == s8[4]);
    assert(bytes_value(s5) == v / 0x100_0000) by {
        lemma_base256_step(v, 0x100_0000);
    }
    assert(s6.last() == s8[5]);
    assert(bytes_value(s6) == v / 0x1_0000) by {
        lemma_base256_step(v, 0x1_0000);
    }
    assert(s7.last() == s8[6]);
    assert(bytes_value(s7) == v / 0x100) by {
        lemma_base256_step(v, 0x100);
    }
    assert(s8.last() == s8[7]);
    assert(bytes_value(s8) == v) by {
        lemma_base256_step(v, 1);
    }
}

impl IntoBitVec for u64 {
    open spec fn bit_width() -> nat {
        64
    }

    open spec fn to_bits(&self) -> Seq<bool> {
        unpack_bytes(u64_be_bytes(*self))
    }

    proof fn lemma_to_bits_len(&self) {
    }

    fn encode(&self) -> (bits: BitVec) {
        let x = *self;
        let b0 = ((x >> 56) & 0xff) as u8;
        let b1 = ((x >> 48) & 0xff) as u8;
        let b2 = ((x >> 40) & 0xff) as u8;
        let b3 = ((x >> 32) & 0xff) as u8;
        let b4 = ((x >> 24) & 0xff) as u8;
        let b5 = ((x >> 16) & 0xff) as u8;
        let b6 = ((x >> 8) & 0xff) as u8;
        let b7 = (x & 0xff) as u8;
        assert(((x >> 56) & 0xff) == (x / 0x100_0000_0000_0000) % 256) by (bit_vector);
        assert(((x >> 48) & 0xff) == (x / 0x1_0000_0000_0000) % 256) by (bit_vector);
        assert(((x >> 40) & 0xff) == (x / 0x100_0000_0000) % 256) by (bit_vector);
        assert(((x >> 32) & 0xff) == (x / 0x1_0000_0000) % 256) by (bit_vector);
        assert(((x >> 24) & 0xff) == (x / 0x100_0000) % 256) by (bit_vector);
        assert(((x >> 16) & 0xff) == (x / 0x1_0000) % 256) by (bit_vector);
        assert(((x >> 8) & 0xff) == (x / 0x100) % 256) by (bit_vector);
        assert((x & 0xff) == x % 256) by (bit_vector);
        let bytes: Vec<u8> = vec![b0, b1, b2, b3, b4, b5, b6, b7];
        assert(bytes@ =~= u64_be_bytes(x));
        bits_from_bytes(bytes.as_slice())
    }
}

impl FromBitVec for u8 {
    open spec fn pattern_width() -> nat {
        8
    }

    open spec fn from_bits(bits: Seq<bool>) -> u8 {
        bits_value(bits) as u8
    }

    fn decode(iter: &mut Iter) -> (symbol: Result<u8, DecodeError>) {
        let ghost all = unread(*iter);
        let mut x: u8 = 0;
        let mut k: usize = 0;
        while k < 8
            invariant
                k <= 8,
                k <= all.len(),
                all == unread(*old(iter)),
                unread(*iter) == all.skip(k as int),
                x == bits_value(all.take(k as int)),
            decreases 8 - k,
        {
            proof {
                lemma_bits_value_bound(all.take(k as int));
                lemma2_to64();
                if k < all.len() {
                    assert(all.take(k + 1).drop_last() =~= all.take(k as int));
                    assert(all.skip(k as int).skip(1) =~= all.skip(k + 1));
                }
                assert(pow2(k as nat) <= 128) by {
                    if k < 7 {
                        vstd::arithmetic::power2::lemma_pow2_strictly_increases(k as nat, 7);
                    }
                }
            }
            assert(x < 128 ==> (x << 1) == 2 * x && ((x << 1) | 1) == 2 * x + 1) by (bit_vector);
            match iter_next(iter) {
                Some(true) => {
                    x <<= 1;
                    x |= 1;
                },
                Some(false) => {
                    x <<= 1;
                },
                None => {
                    return Err(DecodeError::IncompleteSymbol);
                },
            }
            k = k + 1;
        }
        Ok(x)
    }
}

impl FromBitVec for u64 {
    open spec fn pattern_width() -> nat {
        64
    }

    open spec fn from_bits(bits: Seq<bool>) -> u64 {
        bits_value(bits) as u64
    }

    fn decode(iter: &mut Iter) -> (symbol: Result<u64, DecodeError>) {
        let ghost all = unread(*iter);
        let mut x: u64 = 0;
        let mut k: usize = 0;
        while k < 64
            invariant
                k <= 64,
                k <= all.len(),
                all == unread(*old(iter)),
                unread(*iter) == all.skip(k as int),
                x == bits_value(all.take(k as int)),
            decreases 64 - k,
        {
            proof {
                lemma_bits_value_bound(all.take(k as int));
                lemma2_to64();
                lemma2_to64_rest();
                if k < all.len() {
                    assert(all.take(k + 1).drop_last() =~= all.take(k as int));
                    assert(all.skip(k as int).skip(1) =~= all.skip(k + 1));
                }
                assert(pow2(k as nat) <= 0x8000_0000_0000_0000) by {
                    if k < 63 {
                        vstd::arithmetic::power2::lemma_pow2_strictly_increases(k as nat, 63);
                    }
                }
            }
            assert(x < 0x8000_0000_0000_0000 ==> (x << 1) == 2 * x && ((x << 1) | 1) == 2 * x + 1)
                by (bit_vector);
            match iter_next(iter) {
                Some(true) => {
                    x <<= 1;
                    x |= 1;
                },
                Some(false) => {
                    x <<= 1;
                },
                None => {
                    return Err(DecodeError::IncompleteSymbol);
                },
            }
            k = k + 1;
        }
        Ok(x)
    }
}

/// A symbol type whose two conversions undo each other.
pub trait BitSymbol: IntoBitVec + FromBitVec + Copy {
    /// Both conversions use the same width, and reading a written pattern gives
    /// the symbol back.
    proof fn lemma_symbol_round_trip(x: Self)
        ensures
            Self::pattern_width() == Self::bit_width(),
            Self::from_bits(x.to_bits()) == x,
    ;
}

impl BitSymbol for u8 {
    proof fn lemma_symbol_round_trip(x: u8) {
        lemma_bits_value_of_byte(x);
    }
}

impl BitSymbol for u64 {
    proof fn lemma_symbol_round_trip(x: u64) {
        lemma_bits_value_of_bytes(u64_be_bytes(x));
        lemma_bytes_value_of_u64(x);
    }
}

impl<T> Node<T> {
    /// Whether some leaf of the tree holds `c`.
    pub open spec fn has_leaf(self, c: T) -> bool
        decreases self,
    {
        match self {
            Node::Leaf(x) => x == c,
            Node::Branch(left, right) => left.has_leaf(c) || right.has_leaf(c),
        }
    }

    /// Number of leaves.
    pub open spec fn leaf_count(self) -> nat
        decreases self,
    {
        match self {
            Node::Leaf(x) => 1,
            Node::Branch(left, right) => left.leaf_count() + right.leaf_count(),
        }
    }

    /// Length of the longest path from the root to a leaf.
    pub open spec fn height(self) -> nat
        decreases self,
    {
        match self {
            Node::Leaf(x) => 0,
            Node::Branch(left, right) => 1 + if left.height() < right.height() {
                right.height()
            } else {
                left.height()
            },
        }
    }

    /// The code of `c`: the path from the root to a leaf that holds `c`. Where
    /// both subtrees of a branch hold `c`, the path goes right.
    pub open spec fn path_to(self, c: T) -> Seq<bool>
        decreases self,
    {
        match self {
            Node::Leaf(x) => Seq::<bool>::empty(),
            Node::Branch(left, right) => if right.has_leaf(c) {
                seq![true] + right.path_to(c)
            } else {
                seq![false] + left.path_to(c)
            },
        }
    }

    /// Follows `bits` from the root, left on `false` and right on `true`, to a
    /// leaf: the symbol there and the number of bits used. `None` where the
    /// bits end first.
    pub open spec fn walk(self, bits: Seq<bool>) -> Option<(T, nat)>
        decreases self,
    {
        match self {
            Node::Leaf(x) => Some((x, 0nat)),
            Node::Branch(left, right) => if bits.len() == 0 {
                None
            } else {
                let child = if bits[0] {
                    right
                } else {
                    left
                };
                match child.walk(bits.skip(1)) {
                    Some((x, n)) => Some((x, n + 1)),
                    None => None,
                }
            },
        }
    }

    /// What reading one symbol from `bits` gives. At a branch, no bits at all
    /// means that the symbols are over, and bits that end on the way down are
    /// an error. A lone leaf gives its symbol without using a bit.
    pub open spec fn scan_outcome(self, bits: Seq<bool>) -> Result<Option<(T, nat)>, DecodeError> {
        if self is Branch && bits.len() == 0 {
            Ok(None)
        } else {
            match self.walk(bits) {
                Some(found) => Ok(Some(found)),
                None => Err(DecodeError::UnexpectedEndOfInput),
            }
        }
    }

    /// A code is no longer than the tree is high.
    pub proof fn lemma_path_len(self, c: T)
        ensures
            self.path_to(c).len() <= self.height(),
        decreases self,
    {
        match self {
            Node::Leaf(x) => {},
            Node::Branch(left, right) => {
                left.lemma_path_len(c);
                right.lemma_path_len(c);
            },
        }
    }

    /// A tree is lower than it has leaves.
    pub proof fn lemma_height_below_leaf_count(self)
        ensures
            self.height() < self.leaf_count(),
        decreases self,
    {
        match self {
            Node::Leaf(x) => {},
            Node::Branch(left, right) => {
                left.lemma_height_below_leaf_count();
                right.lemma_height_below_leaf_count();
            },
        }
    }

    /// Following the code of a symbol that the tree holds leads to that symbol
    /// and uses exactly the code, whatever bits come after it.
    pub proof fn lemma_walk_path(self, c: T, rest: Seq<bool>)
        requires
            self.has_leaf(c),
        ensures
            self.walk(self.path_to(c) + rest) == Some((c, self.path_to(c).len())),
        decreases self,
    {
        match self {
            Node::Leaf(x) => {},
            Node::Branch(left, right) => {
                let bits = self.path_to(c) + rest;
                if right.has_leaf(c) {
                    right.lemma_walk_path(c, rest);
                    assert(bits.skip(1) =~= right.path_to(c) + rest);
                } else {
                    left.lemma_walk_path(c, rest);
                    assert(bits.skip(1) =~= left.path_to(c) + rest);
                }
            },
        }
    }

    /// A walk uses no more bits than there are, and at a branch at least one.
    pub proof fn lemma_walk_uses(self, bits: Seq<bool>)
        ensures
            self.walk(bits) matches Some((c, n)) ==> n <= bits.len() && self.has_leaf(c) && (self
                is Branch ==> n > 0),
        decreases self,
    {
        match self {
            Node::Leaf(x) => {},
            Node::Branch(left, right) => {
                if bits.len() > 0 {
                    left.lemma_walk_uses(bits.skip(1));
                    right.lemma_walk_uses(bits.skip(1));
                }
            },
        }
    }
}

impl<T: Copy> Node<T> {
    /// Reads one symbol: walks from the root, one bit per branch, to a leaf.
    /// At a branch with no bit left at all the result is `None`: the symbols
    /// are over. Bits that end on the way down are an error.
    pub fn scan(&self, iter: &mut Iter) -> (symbol: Result<Option<T>, DecodeError>)
        ensures
            match self.scan_outcome(unread(*old(iter))) {
                Ok(Some((c, n))) => symbol == Ok::<Option<T>, DecodeError>(Some(c)) && unread(
                    *final(iter),
                ) == unread(*old(iter)).skip(n as int),
                Ok(None) => symbol == Ok::<Option<T>, DecodeError>(None) && unread(*final(iter))
                    == unread(*old(iter)),
                Err(e) => symbol == Err::<Option<T>, DecodeError>(e) && unread(*final(iter)).len()
                    == 0,
            },
        decreases self,
    {
        let ghost bits = unread(*iter);
        match self {
            Node::Leaf(character) => {
                assert(bits.skip(0) =~= bits);
                Ok(Some(*character))
            },
            Node::Branch(node_0, node_1) => {
                match iter_next(iter) {
                    Some(bit) => {
                        let child = if bit {
                            node_1
                        } else {
                            node_0
                        };
                        proof {
                            child.lemma_walk_uses(bits.skip(1));
                        }
                        match child.scan(iter) {
                            Ok(Some(character)) => {
                                proof {
                                    let n = child.walk(bits.skip(1))->Some_0.1;
                                    assert(bits.skip(1).skip(n as int) =~= bits.skip(n as int + 1));
                                }
                                Ok(Some(character))
                            },
                            Ok(None) => Err(DecodeError::UnexpectedEndOfInput),
                            Err(e) => Err(e),
                        }
                    },
                    None => Ok(None),
                }
            },
        }
    }
}

impl<T: IntoBitVec> Node<T> {
    /// The bit encoding of the tree, in pre-order: a set bit and the symbol's
    /// pattern for a leaf; a cleared bit, the left subtree and the right
    /// subtree for a branch.
    pub open spec fn tree_bits(self) -> Seq<bool>
        decreases self,
    {
        match self {
            Node::Leaf(x) => seq![true] + x.to_bits(),
            Node::Branch(left, right) => seq![false] + left.tree_bits() + right.tree_bits(),
        }
    }
}

impl<T: IntoBitVec> Node<T> {
    /// The encoding of a tree has more bits than the tree is high.
    pub proof fn lemma_height_below_bits(self)
        ensures
            self.height() < self.tree_bits().len(),
        decreases self,
    {
        match self {
            Node::Leaf(x) => {},
            Node::Branch(left, right) => {
                left.lemma_height_below_bits();
                right.lemma_height_below_bits();
            },
        }
    }
}

impl<T: FromBitVec> Node<T> {
    /// The tree that `bits` start with and the number of bits it takes, or the
    /// error that reading it runs into: the bits end where a node has to start,
    /// or inside the pattern of a symbol.
    pub open spec fn parse_tree(bits: Seq<bool>) -> Result<(Node<T>, nat), DecodeError>
        decreases bits.len(),
    {
        if bits.len() == 0 {
            Err(DecodeError::UnexpectedEndOfInput)
        } else if bits[0] {
            if bits.len() - 1 < T::pattern_width() {
                Err(DecodeError::IncompleteSymbol)
            } else {
                Ok(
                    (
                        Node::Leaf(T::from_bits(bits.subrange(1, 1 + T::pattern_width() as int))),
                        1 + T::pattern_width(),
                    ),
                )
            }
        } else {
            match Self::parse_tree(bits.skip(1)) {
                Err(e) => Err(e),
                Ok((left, used_left)) => if 1 + used_left > bits.len() {
                    Err(DecodeError::UnexpectedEndOfInput)
                } else {
                    match Self::parse_tree(bits.skip(1 + used_left as int)) {
                        Err(e) => Err(e),
                        Ok((right, used_right)) => Ok(
                            (
                                Node::Branch(Box::new(left), Box::new(right)),
                                1 + used_left + used_right,
                            ),
                        ),
                    }
                },
            }
        }
    }

    /// Reading a tree uses no more bits than there are.
    pub proof fn lemma_parse_tree_uses(bits: Seq<bool>)
        ensures
            Self::parse_tree(bits) matches Ok((tree, used)) ==> 0 < used <= bits.len(),
        decreases bits.len(),
    {
        if bits.len() > 0 && !bits[0] {
            Self::lemma_parse_tree_uses(bits.skip(1));
            match Self::parse_tree(bits.skip(1)) {
                Err(e) => {},
                Ok((left, used_left)) => {
                    if 1 + used_left <= bits.len() {
                        Self::lemma_parse_tree_uses(bits.skip(1 + used_left as int));
                    }
                },
            }
        }
    }
}

impl<T: IntoBitVec + FromBitVec + Copy> Node<T> {
    /// Writes the bit encoding of the tree.
    pub fn encode_tree(&self) -> (bits: BitVec)
        requires
            self.tree_bits().len() <= usize::MAX,
        ensures
            bit_seq(bits) == self.tree_bits(),
        decreases self,
    {
        match self {
            Node::Leaf(character) => {
                let mut output = bits_new();
                bits_push(&mut output, true);
                let pattern = character.encode();
                let joined = append_bit_vec(output, &pattern);
                assert(bit_seq(joined) =~= self.tree_bits());
                joined
            },
            Node::Branch(left_node, right_node) => {
                let mut output = bits_new();
                bits_push(&mut output, false);
                let left = left_node.encode_tree();
                let right = right_node.encode_tree();
                let joined = append_bit_vec(append_bit_vec(output, &left), &right);
                assert(bit_seq(joined) =~= self.tree_bits());
                joined
            },
        }
    }

    /// Reads the bit encoding of a tree. On an error the cursor is left at the
    /// end.
    pub fn decode_tree(iter: &mut Iter) -> (tree: Result<Node<T>, DecodeError>)
        ensures
            match tree {
                Ok(t) => Self::parse_tree(unread(*old(iter))) matches Ok((parsed, used))
                    && parsed == t && unread(*final(iter)) == unread(*old(iter)).skip(used as int),
                Err(e) => Self::parse_tree(unread(*old(iter))) == Err::<(Node<T>, nat), DecodeError>(
                    e,
                ) && unread(*final(iter)).len() == 0,
            },
        decreases unread(*old(iter)).len(),
    {
        let ghost bits = unread(*iter);
        match iter_next(iter) {
            Some(val) => {
                if val {
                    match T::decode(iter) {
                        Ok(character) => {
                            proof {
                                let w = T::pattern_width() as int;
                                assert(bits.skip(1).take(w) =~= bits.subrange(1, 1 + w));
                                assert(bits.skip(1).skip(w) =~= bits.skip(1 + w));
                            }
                            Ok(Node::Leaf(character))
                        },
                        Err(e) => Err(e),
                    }
                } else {
                    let left = match Self::decode_tree(iter) {
                        Ok(t) => t,
                        Err(e) => {
                            return Err(e);
                        },
                    };
                    proof {
                        Self::lemma_parse_tree_uses(bits.skip(1));
                        let used_left = Self::parse_tree(bits.skip(1))->Ok_0.1;
                        assert(bits.skip(1).skip(used_left as int) =~= bits.skip(1 + used_left as int));
                    }
                    let right = match Self::decode_tree(iter) {
                        Ok(t) => t,
                        Err(e) => {
                            return Err(e);
                        },
                    };
                    proof {
                        let used_left = Self::parse_tree(bits.skip(1))->Ok_0.1;
                        Self::lemma_parse_tree_uses(bits.skip(1 + used_left as int));
                        let used_right = Self::parse_tree(bits.skip(1 + used_left as int))->Ok_0.1;
                        assert(bits.skip(1 + used_left as int).skip(used_right as int)
                            =~= bits.skip(1 + used_left as int + used_right as int));
                    }
                    Ok(Node::Branch(Box::new(left), Box::new(right)))
                }
            },
            None => Err(DecodeError::UnexpectedEndOfInput),
        }
    }
}

/// Reading the encoding of a tree gives the tree back and uses exactly the
/// encoding, whatever bits come after it.
pub proof fn lemma_tree_round_trip<T: BitSymbol>(tree: Node<T>, rest: Seq<bool>)
    ensures
        Node::<T>::parse_tree(tree.tree_bits() + rest) == Ok::<(Node<T>, nat), DecodeError>(
            (tree, tree.tree_bits().len()),
        ),
    decreases tree,
{
    let bits = tree.tree_bits() + rest;
    match tree {
        Node::Leaf(x) => {
            T::lemma_symbol_round_trip(x);
            x.lemma_to_bits_len();
            assert(bits.subrange(1, 1 + T::pattern_width() as int) =~= x.to_bits());
        },
        Node::Branch(left, right) => {
            let l = left.tree_bits();
            let r = right.tree_bits();
            assert(bits.skip(1) =~= l + (r + rest));
            lemma_tree_round_trip::<T>(*left, r + rest);
            assert(bits.skip(1 + l.len() as int) =~= r + rest);
            lemma_tree_round_trip::<T>(*right, rest);
            assert(Box::new(*left) == left);
            assert(Box::new(*right) == right);
        },
    }
}

} // verus!
