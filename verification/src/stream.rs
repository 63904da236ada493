//! What the compressed streams hold, as functions on bit and byte sequences,
//! and the proofs that decoding undoes encoding.

use crate::bitvec_util::{lemma_wire_round_trip, wire_bits, wire_bytes};
use crate::error::DecodeError;
use crate::huffman::{lemma_tree_round_trip, Node};
use crate::huffman_build::{is_counted, is_huffman_tree_of, lemma_huffman_tree_leaves};
use crate::lz_77::{is_lz77_encoding, lemma_lz77_round_trip, lz77_decode, Token};
use crate::lz_78::{lemma_lz78_round_trip, lz78_decode, lz78_encode, Pair};
use vstd::prelude::*;

verus! {

/// How often `x` occurs in `s`.
pub open spec fn occurrences<T>(s: Seq<T>, x: T) -> nat
    decreases s.len(),
{
    if s.len() == 0 {
        0
    } else {
        occurrences(s.drop_last(), x) + if s.last() == x {
            1nat
        } else {
            0nat
        }
    }
}

/// The count of every symbol that occurs in `s`.
pub open spec fn symbol_counts<T>(s: Seq<T>) -> Map<T, u64> {
    Map::new(|x: T| occurrences(s, x) > 0, |x: T| occurrences(s, x) as u64)
}

/// `stats`, with one more symbol of count one where it holds a single symbol:
/// `first`, or `second` where `first` is the symbol it holds. A tree built for
/// the result is then never a lone leaf.
pub open spec fn with_placeholder<T>(stats: Map<T, u64>, first: T, second: T) -> Map<T, u64> {
    if stats.dom().len() == 1 {
        stats.insert(
            if stats.contains_key(first) {
                second
            } else {
                first
            },
            1,
        )
    } else {
        stats
    }
}

/// A symbol occurs no more often than the sequence is long, and at least once
/// where it stands.
pub proof fn lemma_occurrences<T>(s: Seq<T>, x: T)
    ensures
        occurrences(s, x) <= s.len(),
        occurrences(s, x) > 0 <==> s.contains(x),
    decreases s.len(),
{
    if s.len() > 0 {
        lemma_occurrences(s.drop_last(), x);
        if s.contains(x) {
            let i = choose|i: int| 0 <= i < s.len() && s[i] == x;
            if i < s.len() - 1 {
                assert(s.drop_last()[i] == x);
            }
        }
        if s.drop_last().contains(x) {
            let i = choose|i: int| 0 <= i < s.len() - 1 && s.drop_last()[i] == x;
            assert(s[i] == x);
        }
        if s.last() == x {
            assert(s[s.len() - 1] == x);
        }
    }
}

/// The symbols with a count are those that occur, and they are finitely many.
pub proof fn lemma_symbol_counts_dom<T>(s: Seq<T>)
    ensures
        symbol_counts(s).dom() == s.to_set(),
        symbol_counts(s).dom().finite(),
{
    assert forall|x: T| symbol_counts(s).dom().contains(x) <==> s.to_set().contains(x) by {
        lemma_occurrences(s, x);
    }
    assert(symbol_counts(s).dom() =~= s.to_set());
    vstd::seq_lib::seq_to_set_is_finite(s);
}

/// The codes of the symbols of `content`, one after the other.
pub open spec fn encode_symbols<T>(content: Seq<T>, tree: Node<T>) -> Seq<bool>
    decreases content.len(),
{
    if content.len() == 0 {
        Seq::<bool>::empty()
    } else {
        tree.path_to(content[0]) + encode_symbols(content.skip(1), tree)
    }
}

/// The symbols that `bits` spell in the code of `tree`, read one after the
/// other until the bits are used up. Bits that end inside a code are an error,
/// and so are bits under a tree that is a lone leaf, whose symbol has no code.
pub open spec fn decode_symbols<T>(tree: Node<T>, bits: Seq<bool>) -> Result<Seq<T>, DecodeError>
    decreases bits.len(),
{
    if bits.len() == 0 {
        Ok(Seq::<T>::empty())
    } else {
        match tree.walk(bits) {
            None => Err(DecodeError::UnexpectedEndOfInput),
            Some((c, used)) => if used == 0 || used > bits.len() {
                Err(DecodeError::MalformedTokenStream)
            } else {
                match decode_symbols(tree, bits.skip(used as int)) {
                    Ok(rest) => Ok(seq![c] + rest),
                    Err(e) => Err(e),
                }
            },
        }
    }
}

/// Encoding two runs of symbols gives the bits of the first, then the bits of
/// the second.
pub proof fn lemma_encode_symbols_concat<T>(head: Seq<T>, tail: Seq<T>, tree: Node<T>)
    ensures
        encode_symbols(head + tail, tree) == encode_symbols(head, tree) + encode_symbols(
            tail,
            tree,
        ),
    decreases head.len(),
{
    if head.len() == 0 {
        assert(head + tail =~= tail);
        assert(encode_symbols(head, tree) + encode_symbols(tail, tree) =~= encode_symbols(
            tail,
            tree,
        ));
    } else {
        lemma_encode_symbols_concat(head.skip(1), tail, tree);
        assert((head + tail).skip(1) =~= head.skip(1) + tail);
        assert((head + tail)[0] == head[0]);
        assert(tree.path_to(head[0]) + (encode_symbols(head.skip(1), tree) + encode_symbols(
            tail,
            tree,
        )) =~= (tree.path_to(head[0]) + encode_symbols(head.skip(1), tree)) + encode_symbols(
            tail,
            tree,
        ));
    }
}

/// Reading the codes of a run of symbols gives the symbols back in order,
/// where the tree holds each of them and is no lone leaf.
pub proof fn lemma_symbols_round_trip<T>(content: Seq<T>, tree: Node<T>)
    requires
        tree is Branch,
        forall|i: int| 0 <= i < content.len() ==> tree.has_leaf(#[trigger] content[i]),
    ensures
        decode_symbols(tree, encode_symbols(content, tree)) == Ok::<Seq<T>, DecodeError>(content),
    decreases content.len(),
{
    let bits = encode_symbols(content, tree);
    if content.len() == 0 {
        assert(content =~= Seq::<T>::empty());
    } else {
        let code = tree.path_to(content[0]);
        let rest = encode_symbols(content.skip(1), tree);
        assert(bits == code + rest);
        assert(tree.has_leaf(content[0]));
        tree.lemma_walk_path(content[0], rest);
        tree.lemma_walk_uses(bits);
        assert(tree.walk(bits) == Some((content[0], code.len())));
        assert(0 < code.len() <= bits.len());
        assert(bits.skip(code.len() as int) =~= rest);
        assert forall|i: int| 0 <= i < content.skip(1).len() implies tree.has_leaf(
            #[trigger] content.skip(1)[i],
        ) by {
            assert(content.skip(1)[i] == content[i + 1]);
        }
        lemma_symbols_round_trip(content.skip(1), tree);
        assert(seq![content[0]] + content.skip(1) =~= content);
    }
}

/// No code is the start of the code of another symbol.
pub proof fn lemma_codes_prefix_free<T>(tree: Node<T>, a: T, b: T)
    requires
        tree.has_leaf(a),
        tree.has_leaf(b),
        a != b,
    ensures
        !tree.path_to(a).is_prefix_of(tree.path_to(b)),
{
    let pa = tree.path_to(a);
    let pb = tree.path_to(b);
    if pa.is_prefix_of(pb) {
        let rest = pb.skip(pa.len() as int);
        assert(pa + rest =~= pb);
        tree.lemma_walk_path(a, rest);
        tree.lemma_walk_path(b, Seq::<bool>::empty());
        assert(pb + Seq::<bool>::empty() =~= pb);
    }
}

/// In the code table of a tree built for counts, no code is the start of the
/// code of another symbol.
pub proof fn lemma_codebook_prefix_free<T>(stats: Map<T, u64>, tree: Node<T>, a: T, b: T)
    requires
        is_huffman_tree_of(stats, tree),
        is_counted(stats, a),
        is_counted(stats, b),
        a != b,
    ensures
        !tree.path_to(a).is_prefix_of(tree.path_to(b)),
{
    lemma_huffman_tree_leaves(stats, tree);
    lemma_codes_prefix_free(tree, a, b);
}

/// Reading symbol after symbol from the codes of a run of counted symbols,
/// under a tree built for the counts, gives the run back in order. The counts
/// must hold two symbols at least: a single symbol has the empty code.
pub proof fn lemma_codes_reproduce<T>(stats: Map<T, u64>, tree: Node<T>, content: Seq<T>)
    requires
        is_huffman_tree_of(stats, tree),
        forall|i: int| 0 <= i < content.len() ==> is_counted(stats, #[trigger] content[i]),
        exists|a: T, b: T| is_counted(stats, a) && is_counted(stats, b) && a != b,
    ensures
        decode_symbols(tree, encode_symbols(content, tree)) == Ok::<Seq<T>, DecodeError>(content),
{
    lemma_huffman_tree_leaves(stats, tree);
    lemma_symbols_round_trip(content, tree);
}

/// The stream of the entropy coder for `content` under `tree`: the encoding of
/// the tree, then the codes of the bytes, in the wire format.
pub open spec fn huffman_stream(content: Seq<u8>, tree: Node<u8>) -> Seq<u8> {
    wire_bytes(tree.tree_bits() + encode_symbols(content, tree))
}

/// The counts that the entropy coder builds its tree for.
pub open spec fn huffman_counts(content: Seq<u8>) -> Map<u8, u64> {
    with_placeholder(symbol_counts(content), 0u8, 1u8)
}

/// Whether the stream for `content` has few enough bits to be counted in a
/// `usize`, whichever tree the merging builds.
pub open spec fn huffman_stream_fits(content: Seq<u8>) -> bool {
    forall|tree: Node<u8>| #[trigger]
        is_huffman_tree_of(huffman_counts(content), tree) ==> tree.tree_bits().len()
            + encode_symbols(content, tree).len() <= usize::MAX
}

/// `tail` after a successful result, or the error.
pub open spec fn prepend_to<T>(head: Seq<T>, tail: Result<Seq<T>, DecodeError>) -> Result<
    Seq<T>,
    DecodeError,
> {
    match tail {
        Ok(rest) => Ok(head + rest),
        Err(e) => Err(e),
    }
}

/// What a stream of the entropy coder decodes to. The empty stream stands for
/// the empty content. A tree that is a lone leaf is an error: its symbol has no
/// code.
pub open spec fn huffman_decode(bytes: Seq<u8>) -> Result<Seq<u8>, DecodeError> {
    if bytes.len() == 0 {
        Ok(Seq::<u8>::empty())
    } else {
        match wire_bits(bytes) {
            Err(e) => Err(e),
            Ok(bits) => match Node::<u8>::parse_tree(bits) {
                Err(e) => Err(e),
                Ok((tree, used)) => if tree is Leaf {
                    Err(DecodeError::MalformedTokenStream)
                } else {
                    decode_symbols(tree, bits.skip(used as int))
                },
            },
        }
    }
}

/// The entropy coder loses nothing: a stream written under a tree that is no
/// lone leaf and holds every byte of the content decodes to the content.
pub proof fn lemma_huffman_round_trip(content: Seq<u8>, tree: Node<u8>)
    requires
        tree is Branch,
        forall|i: int| 0 <= i < content.len() ==> tree.has_leaf(#[trigger] content[i]),
    ensures
        huffman_decode(huffman_stream(content, tree)) == Ok::<Seq<u8>, DecodeError>(content),
{
    let payload = encode_symbols(content, tree);
    let bits = tree.tree_bits() + payload;
    lemma_wire_round_trip(bits);
    lemma_tree_round_trip::<u8>(tree, payload);
    assert(bits.skip(tree.tree_bits().len() as int) =~= payload);
    lemma_symbols_round_trip(content, tree);
}

/// A tree built for the padded counts of a content that is not empty is no
/// lone leaf and holds every symbol of the content.
pub proof fn lemma_padded_tree_covers<T>(content: Seq<T>, first: T, second: T, tree: Node<T>)
    requires
        content.len() > 0,
        content.len() <= u64::MAX,
        first != second,
        is_huffman_tree_of(with_placeholder(symbol_counts(content), first, second), tree),
    ensures
        tree is Branch,
        forall|i: int| 0 <= i < content.len() ==> tree.has_leaf(#[trigger] content[i]),
{
    let plain = symbol_counts(content);
    let stats = with_placeholder(plain, first, second);
    lemma_huffman_tree_leaves(stats, tree);
    assert forall|i: int| 0 <= i < content.len() implies is_counted(
        stats,
        #[trigger] content[i],
    ) by {
        lemma_occurrences(content, content[i]);
    }
    let a = content[0];
    assert(is_counted(stats, a));
    lemma_symbol_counts_dom(content);
    let dom = plain.dom();
    if dom.len() == 1 {
        let extra = if plain.contains_key(first) {
            second
        } else {
            first
        };
        if dom.contains(first) && dom.contains(second) {
            vstd::set::axiom_set_remove_len(dom, first);
            vstd::set::axiom_set_remove_len(dom.remove(first), second);
            assert(false);
        }
        lemma_occurrences(content, a);
        assert(dom.contains(a));
        assert(extra != a);
        assert(is_counted(stats, extra));
    } else {
        if forall|i: int| 0 <= i < content.len() ==> content[i] == a {
            assert forall|x: T| plain.dom().contains(x) implies x == a by {
                lemma_occurrences(content, x);
                let i = choose|i: int| 0 <= i < content.len() && content[i] == x;
            }
            lemma_occurrences(content, a);
            assert(dom =~= Set::<T>::empty().insert(a));
            vstd::set::axiom_set_insert_len(Set::<T>::empty(), a);
            assert(Set::<T>::empty().len() == 0);
            assert(false);
        }
        let j = choose|j: int| 0 <= j < content.len() && content[j] != a;
        assert(is_counted(stats, content[j]));
    }
}

/// The three bytes of a token in the flat form: distance and length share 16
/// bits, the length in the low 4 of them, written low byte first; then the
/// literal.
pub open spec fn token_bytes(tok: Token) -> Seq<u8> {
    let packed = tok.0 as int * 16 + tok.1 as int;
    seq![(packed % 256) as u8, (packed / 256) as u8, tok.2]
}

/// The token that three bytes of the flat form stand for.
pub open spec fn token_of_bytes(low: u8, high: u8, literal: u8) -> Token {
    let packed = high as int * 256 + low as int;
    ((packed / 16) as u16, (packed % 16) as u8, literal)
}

/// Whether distance and length of `tok` fit the flat form: 12 and 4 bits.
pub open spec fn token_packs(tok: Token) -> bool {
    tok.0 < 4096 && tok.1 < 16
}

/// The flat form of a token sequence: three bytes per token.
pub open spec fn flatten_tokens(toks: Seq<Token>) -> Seq<u8> {
    Seq::new(3 * toks.len(), |k: int| token_bytes(toks[k / 3])[k % 3])
}

/// The tokens that a flat form holds, three bytes each; bytes that do not make
/// a whole token at the end are left out.
pub open spec fn unflatten_tokens(bytes: Seq<u8>) -> Seq<Token> {
    Seq::new(
        bytes.len() / 3,
        |i: int| token_of_bytes(bytes[3 * i], bytes[3 * i + 1], bytes[3 * i + 2]),
    )
}

/// What a flat token stream decodes to. A length that is no multiple of three
/// is an error.
pub open spec fn lz77_stream_decode(bytes: Seq<u8>) -> Result<Seq<u8>, DecodeError> {
    if bytes.len() % 3 != 0 {
        Err(DecodeError::MalformedTokenStream)
    } else {
        lz77_decode(unflatten_tokens(bytes))
    }
}

/// The flat form of a token sequence with one more token is the flat form of
/// the sequence, then the three bytes of the token.
pub proof fn lemma_flatten_push(toks: Seq<Token>, tok: Token)
    ensures
        flatten_tokens(toks.push(tok)) == flatten_tokens(toks) + token_bytes(tok),
{
    let longer = toks.push(tok);
    let joined = flatten_tokens(toks) + token_bytes(tok);
    assert forall|m: int| 0 <= m < joined.len() implies flatten_tokens(longer)[m] == joined[m] by {
        if m < 3 * toks.len() {
            assert(longer[m / 3] == toks[m / 3]);
        } else {
            assert(m / 3 == toks.len());
            assert(m % 3 == m - 3 * toks.len());
        }
    }
    assert(flatten_tokens(longer) =~= joined);
}

/// Reading the three bytes of a token that fits the flat form gives the token.
pub proof fn lemma_token_bytes_round_trip(tok: Token)
    requires
        token_packs(tok),
    ensures
        token_of_bytes(token_bytes(tok)[0], token_bytes(tok)[1], token_bytes(tok)[2]) == tok,
{
    let packed = tok.0 as int * 16 + tok.1 as int;
    assert(0 <= packed < 65536);
    assert((packed / 256) * 256 + packed % 256 == packed);
}

/// Regrouping the flat form of tokens that fit it gives the tokens back.
pub proof fn lemma_unflatten_flatten(toks: Seq<Token>)
    requires
        forall|i: int| 0 <= i < toks.len() ==> token_packs(#[trigger] toks[i]),
    ensures
        flatten_tokens(toks).len() == 3 * toks.len(),
        unflatten_tokens(flatten_tokens(toks)) == toks,
{
    let flat = flatten_tokens(toks);
    assert forall|i: int| 0 <= i < toks.len() implies unflatten_tokens(flat)[i] == toks[i] by {
        assert(token_packs(toks[i]));
        lemma_token_bytes_round_trip(toks[i]);
        assert(flat[3 * i] == token_bytes(toks[i])[0]);
        assert(flat[3 * i + 1] == token_bytes(toks[i])[1]);
        assert(flat[3 * i + 2] == token_bytes(toks[i])[2]);
    }
    assert(unflatten_tokens(flat) =~= toks);
}

/// The window codec with the flat form loses nothing: the flat form of the
/// tokens that encode `x` decodes to `x`.
pub proof fn lemma_lz77_stream_round_trip(x: Seq<u8>, toks: Seq<Token>)
    requires
        is_lz77_encoding(x, toks),
    ensures
        lz77_stream_decode(flatten_tokens(toks)) == Ok::<Seq<u8>, DecodeError>(x),
{
    assert forall|i: int| 0 <= i < toks.len() implies token_packs(#[trigger] toks[i]) by {
        crate::lz_77::lemma_parse_token_ranges(x, 0, toks, x.len() as int, i);
    }
    lemma_unflatten_flatten(toks);
    lemma_lz77_round_trip(x, toks);
}

/// The window codec followed by the entropy coder loses nothing either: what
/// the entropy coder reads back is the flat form, and that decodes to `x`.
pub proof fn lemma_lz77_huffman_round_trip(x: Seq<u8>, toks: Seq<Token>, tree: Node<u8>)
    requires
        is_lz77_encoding(x, toks),
        tree is Branch,
        forall|i: int|
            0 <= i < flatten_tokens(toks).len() ==> tree.has_leaf(#[trigger] flatten_tokens(toks)[i]),
    ensures
        huffman_decode(huffman_stream(flatten_tokens(toks), tree)) matches Ok(flat)
            && lz77_stream_decode(flat) == Ok::<Seq<u8>, DecodeError>(x),
{
    lemma_huffman_round_trip(flatten_tokens(toks), tree);
    lemma_lz77_stream_round_trip(x, toks);
}

/// The pointers of a token sequence.
pub open spec fn pointers_of(toks: Seq<Pair>) -> Seq<u64> {
    Seq::new(toks.len(), |i: int| toks[i].0)
}

/// The literals of a token sequence.
pub open spec fn literals_of(toks: Seq<Pair>) -> Seq<u8> {
    Seq::new(toks.len(), |i: int| toks[i].1)
}

/// The codes of the tokens, one after the other: for each token the code of
/// its pointer under `ptree`, then the code of its literal under `ctree`.
pub open spec fn encode_pairs(toks: Seq<Pair>, ptree: Node<u64>, ctree: Node<u8>) -> Seq<bool>
    decreases toks.len(),
{
    if toks.len() == 0 {
        Seq::<bool>::empty()
    } else {
        ptree.path_to(toks[0].0) + ctree.path_to(toks[0].1) + encode_pairs(
            toks.skip(1),
            ptree,
            ctree,
        )
    }
}

/// The tokens that `bits` spell, a pointer code and a literal code in turn,
/// until the bits are used up. Bits that end inside a code, or after a pointer,
/// are an error, and so are bits under a tree that is a lone leaf.
pub open spec fn decode_pairs(ptree: Node<u64>, ctree: Node<u8>, bits: Seq<bool>) -> Result<
    Seq<Pair>,
    DecodeError,
>
    decreases bits.len(),
{
    if bits.len() == 0 {
        Ok(Seq::<Pair>::empty())
    } else {
        match ptree.walk(bits) {
            None => Err(DecodeError::UnexpectedEndOfInput),
            Some((pointer, used)) => if used == 0 || used > bits.len() {
                Err(DecodeError::MalformedTokenStream)
            } else {
                let rest = bits.skip(used as int);
                if rest.len() == 0 {
                    Err(DecodeError::UnexpectedEndOfInput)
                } else {
                    match ctree.walk(rest) {
                        None => Err(DecodeError::UnexpectedEndOfInput),
                        Some((literal, more)) => if more == 0 || more > rest.len() {
                            Err(DecodeError::MalformedTokenStream)
                        } else {
                            match decode_pairs(ptree, ctree, rest.skip(more as int)) {
                                Ok(tail) => Ok(seq![(pointer, literal)] + tail),
                                Err(e) => Err(e),
                            }
                        },
                    }
                }
            },
        }
    }
}

/// Encoding two runs of tokens gives the bits of the first, then the bits of
/// the second.
pub proof fn lemma_encode_pairs_concat(
    head: Seq<Pair>,
    tail: Seq<Pair>,
    ptree: Node<u64>,
    ctree: Node<u8>,
)
    ensures
        encode_pairs(head + tail, ptree, ctree) == encode_pairs(head, ptree, ctree) + encode_pairs(
            tail,
            ptree,
            ctree,
        ),
    decreases head.len(),
{
    if head.len() == 0 {
        assert(head + tail =~= tail);
        assert(encode_pairs(head, ptree, ctree) + encode_pairs(tail, ptree, ctree)
            =~= encode_pairs(tail, ptree, ctree));
    } else {
        lemma_encode_pairs_concat(head.skip(1), tail, ptree, ctree);
        assert((head + tail).skip(1) =~= head.skip(1) + tail);
        assert((head + tail)[0] == head[0]);
        let first = ptree.path_to(head[0].0) + ctree.path_to(head[0].1);
        assert(first + (encode_pairs(head.skip(1), ptree, ctree) + encode_pairs(
            tail,
            ptree,
            ctree,
        )) =~= (first + encode_pairs(head.skip(1), ptree, ctree)) + encode_pairs(
            tail,
            ptree,
            ctree,
        ));
    }
}

/// Reading the codes of a run of tokens gives the tokens back in order, where
/// the trees hold every pointer and every literal and neither is a lone leaf.
pub proof fn lemma_pairs_round_trip(toks: Seq<Pair>, ptree: Node<u64>, ctree: Node<u8>)
    requires
        ptree is Branch,
        ctree is Branch,
        forall|i: int|
            0 <= i < toks.len() ==> ptree.has_leaf((#[trigger] toks[i]).0) && ctree.has_leaf(
                toks[i].1,
            ),
    ensures
        decode_pairs(ptree, ctree, encode_pairs(toks, ptree, ctree)) == Ok::<
            Seq<Pair>,
            DecodeError,
        >(toks),
    decreases toks.len(),
{
    let bits = encode_pairs(toks, ptree, ctree);
    if toks.len() == 0 {
        assert(toks =~= Seq::<Pair>::empty());
    } else {
        let pcode = ptree.path_to(toks[0].0);
        let ccode = ctree.path_to(toks[0].1);
        let tail = encode_pairs(toks.skip(1), ptree, ctree);
        assert(bits == pcode + ccode + tail);
        assert(ptree.has_leaf(toks[0].0) && ctree.has_leaf(toks[0].1));
        assert(bits =~= pcode + (ccode + tail));
        ptree.lemma_walk_path(toks[0].0, ccode + tail);
        ptree.lemma_walk_uses(bits);
        let rest = bits.skip(pcode.len() as int);
        assert(rest =~= ccode + tail);
        ctree.lemma_walk_path(toks[0].1, tail);
        ctree.lemma_walk_uses(rest);
        assert(rest.skip(ccode.len() as int) =~= tail);
        assert forall|i: int| 0 <= i < toks.skip(1).len() implies ptree.has_leaf(
            (#[trigger] toks.skip(1)[i]).0,
        ) && ctree.has_leaf(toks.skip(1)[i].1) by {
            assert(toks.skip(1)[i] == toks[i + 1]);
        }
        lemma_pairs_round_trip(toks.skip(1), ptree, ctree);
        assert(seq![toks[0]] + toks.skip(1) =~= toks);
    }
}

/// The counts that the dictionary pipeline builds its pointer tree for.
pub open spec fn lz78_pointer_counts(content: Seq<u8>) -> Map<u64, u64> {
    with_placeholder(symbol_counts(pointers_of(lz78_encode(content))), 0u64, 1u64)
}

/// The counts that the dictionary pipeline builds its literal tree for.
pub open spec fn lz78_literal_counts(content: Seq<u8>) -> Map<u8, u64> {
    with_placeholder(symbol_counts(literals_of(lz78_encode(content))), 0u8, 1u8)
}

/// The bits of the dictionary pipeline for `content` under the two trees: the
/// encoding of the pointer tree, that of the literal tree, then the codes of
/// the tokens.
pub open spec fn lz78_stream_bits(content: Seq<u8>, ptree: Node<u64>, ctree: Node<u8>) -> Seq<
    bool,
> {
    ptree.tree_bits() + ctree.tree_bits() + encode_pairs(lz78_encode(content), ptree, ctree)
}

/// The stream of the dictionary pipeline: its bits in the wire format.
pub open spec fn lz78_stream(content: Seq<u8>, ptree: Node<u64>, ctree: Node<u8>) -> Seq<u8> {
    wire_bytes(lz78_stream_bits(content, ptree, ctree))
}

/// Whether the stream for `content` has few enough bits to be counted in a
/// `usize`, whichever trees the merging builds, and the content few enough
/// bytes for 64-bit pointers.
pub open spec fn lz78_stream_fits(content: Seq<u8>) -> bool {
    &&& content.len() < u64::MAX
    &&& forall|ptree: Node<u64>, ctree: Node<u8>|
        #![trigger
            is_huffman_tree_of(lz78_pointer_counts(content), ptree),
            is_huffman_tree_of(lz78_literal_counts(content), ctree),
        ]
        is_huffman_tree_of(lz78_pointer_counts(content), ptree) && is_huffman_tree_of(
            lz78_literal_counts(content),
            ctree,
        ) ==> lz78_stream_bits(content, ptree, ctree).len() <= usize::MAX
}

/// What a stream of the dictionary pipeline decodes to. The empty stream
/// stands for the empty content. A tree that is a lone leaf is an error.
pub open spec fn lz78_stream_decode(bytes: Seq<u8>) -> Result<Seq<u8>, DecodeError> {
    if bytes.len() == 0 {
        Ok(Seq::<u8>::empty())
    } else {
        match wire_bits(bytes) {
            Err(e) => Err(e),
            Ok(bits) => match Node::<u64>::parse_tree(bits) {
                Err(e) => Err(e),
                Ok((ptree, used)) => match Node::<u8>::parse_tree(bits.skip(used as int)) {
                    Err(e) => Err(e),
                    Ok((ctree, more)) => if ptree is Leaf || ctree is Leaf {
                        Err(DecodeError::MalformedTokenStream)
                    } else {
                        match decode_pairs(ptree, ctree, bits.skip(used as int).skip(more as int)) {
                            Err(e) => Err(e),
                            Ok(toks) => lz78_decode(toks),
                        }
                    },
                },
            },
        }
    }
}

/// The dictionary pipeline loses nothing: a stream written under trees that
/// are no lone leaves and hold every pointer and literal decodes to the
/// content.
pub proof fn lemma_lz78_stream_round_trip(content: Seq<u8>, ptree: Node<u64>, ctree: Node<u8>)
    requires
        content.len() < u64::MAX,
        ptree is Branch,
        ctree is Branch,
        forall|i: int|
            0 <= i < lz78_encode(content).len() ==> ptree.has_leaf(
                (#[trigger] lz78_encode(content)[i]).0,
            ) && ctree.has_leaf(lz78_encode(content)[i].1),
    ensures
        lz78_stream_decode(lz78_stream(content, ptree, ctree)) == Ok::<Seq<u8>, DecodeError>(
            content,
        ),
{
    let toks = lz78_encode(content);
    let payload = encode_pairs(toks, ptree, ctree);
    let bits = lz78_stream_bits(content, ptree, ctree);
    lemma_wire_round_trip(bits);
    assert(bits =~= ptree.tree_bits() + (ctree.tree_bits() + payload));
    lemma_tree_round_trip::<u64>(ptree, ctree.tree_bits() + payload);
    let after_first = bits.skip(ptree.tree_bits().len() as int);
    assert(after_first =~= ctree.tree_bits() + payload);
    lemma_tree_round_trip::<u8>(ctree, payload);
    assert(after_first.skip(ctree.tree_bits().len() as int) =~= payload);
    lemma_pairs_round_trip(toks, ptree, ctree);
    lemma_lz78_round_trip(content);
}

} // verus!
