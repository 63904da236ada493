//! Lossless compression of byte streams: an entropy coder with prefix-code
//! trees, a sliding-window codec and a dictionary codec, and the pipelines that
//! combine them. Every stream carries what is needed to decode it.

pub mod bits;
pub mod bitvec_util;
pub mod bounds;
pub mod error;
pub mod huffman;
pub mod huffman_build;
pub mod lz_77;
pub mod lz_78;
pub mod min_heap;
pub mod optimal;
pub mod order;
pub mod stream;

use crate::bits::{bit_seq, bits_iter, bits_new, unread};
use crate::bitvec_util::{append_bit_vec, deserialize_bit_vec, serialize_bit_vec};
use crate::error::DecodeError;
use crate::huffman::Node;
use crate::huffman_build::{is_counted, is_huffman_tree_of};
use crate::lz_77::{is_lz77_encoding, lemma_parse_token_ranges, lz77_coding, lz77_decoding, Token};
use crate::lz_78::{
    lemma_lz78_encode_nonempty, lz78_coding, lz78_decode, lz78_decoding, lz78_initial, Pair,
};
use crate::order::keys_are_ordered;
use crate::stream::{
    decode_pairs, decode_symbols, encode_pairs, encode_symbols, flatten_tokens, huffman_counts,
    huffman_decode, huffman_stream, huffman_stream_fits, lemma_encode_pairs_concat,
    lemma_encode_symbols_concat, lemma_flatten_push, lemma_huffman_round_trip,
    lemma_lz77_stream_round_trip, lemma_lz78_stream_round_trip, lemma_occurrences,
    lemma_padded_tree_covers, lemma_unflatten_flatten, literals_of, lz77_stream_decode,
    lz78_literal_counts, lz78_pointer_counts, lz78_stream, lz78_stream_bits, lz78_stream_decode,
    lz78_stream_fits, pointers_of, prepend_to, symbol_counts, token_bytes, token_of_bytes,
    token_packs, unflatten_tokens, with_placeholder,
};
use std::collections::BTreeMap;
use vstd::pervasive::unreached;
use vstd::prelude::*;

verus! {

/// Counts one more occurrence of `key`.
fn count_symbol<T: Ord + Copy>(stat: &mut BTreeMap<T, u64>, key: T, Ghost(seen): Ghost<Seq<T>>)
    requires
        keys_are_ordered::<T>(),
        old(stat)@ == symbol_counts(seen),
        seen.len() < u64::MAX,
    ensures
        final(stat)@ == symbol_counts(seen.push(key)),
{
    proof {
        lemma_occurrences(seen, key);
    }
    let so_far: u64 = match stat.get(&key) {
        Some(count) => *count,
        None => 0,
    };
    stat.insert(key, so_far + 1);
    proof {
        let longer = seen.push(key);
        assert(longer.drop_last() =~= seen);
        assert forall|x: T| stat@.contains_key(x) implies stat@[x] == symbol_counts(longer)[x] by {
            lemma_occurrences(seen, x);
        }
        assert(stat@ =~= symbol_counts(longer));
    }
}

/// Where `stat` holds a single symbol, adds one more with count one: `first`,
/// or `second` where `first` is the symbol it holds.
fn add_placeholder<T: Ord + Copy>(stat: &mut BTreeMap<T, u64>, first: T, second: T)
    requires
        keys_are_ordered::<T>(),
    ensures
        final(stat)@ == with_placeholder(old(stat)@, first, second),
{
    if stat.len() == 1 {
        let extra = if stat.contains_key(&first) {
            second
        } else {
            first
        };
        stat.insert(extra, 1);
    }
}

/// Compresses `content` with the entropy coder: counts the bytes, builds a tree
/// for the counts, and writes the tree and then the code of every byte. Empty
/// content gives an empty stream.
///
/// The bits of the stream are counted in a `usize`, so the stream must fit;
/// `bounds::lemma_huffman_stream_fits` shows that it does for every content of
/// up to `(usize::MAX - 2559) / 255` bytes.
#[verifier::rlimit(40)]
pub fn compression_huffman(content: &[u8]) -> (out: Vec<u8>)
    requires
        huffman_stream_fits(content@),
    ensures
        content@.len() == 0 ==> out@.len() == 0,
        content@.len() > 0 ==> exists|tree: Node<u8>| #[trigger]
            is_huffman_tree_of(huffman_counts(content@), tree) && out@ == huffman_stream(
                content@,
                tree,
            ),
        huffman_decode(out@) == Ok::<Seq<u8>, DecodeError>(content@),
{
    if content.len() == 0 {
        assert(content@ =~= Seq::<u8>::empty());
        return Vec::new();
    }
    let mut stat: BTreeMap<u8, u64> = BTreeMap::new();
    let mut i: usize = 0;
    assert(stat@ =~= symbol_counts(content@.take(0)));
    while i < content.len()
        invariant
            i <= content@.len(),
            stat@ == symbol_counts(content@.take(i as int)),
        decreases content@.len() - i,
    {
        assert(content@.take(i + 1) =~= content@.take(i as int).push(content@[i as int]));
        count_symbol(&mut stat, content[i], Ghost(content@.take(i as int)));
        i = i + 1;
    }
    assert(content@.take(i as int) =~= content@);
    add_placeholder(&mut stat, 0, 1);
    proof {
        lemma_occurrences(content@, content@[0]);
        assert(is_counted(stat@, content@[0]));
    }
    let tree = Node::from_statistics(&stat);
    let ghost shape = tree;
    proof {
        assert(stat@ == huffman_counts(content@));
        assert(is_huffman_tree_of(huffman_counts(content@), shape));
        lemma_padded_tree_covers(content@, 0u8, 1u8, shape);
        shape.lemma_height_below_bits();
    }
    let mut output = bits_new();
    let tree_code = tree.encode_tree();
    output = append_bit_vec(output, &tree_code);
    let dico = tree.to_dictionnary(bits_new());
    let mut k: usize = 0;
    proof {
        assert(content@.take(0) =~= Seq::<u8>::empty());
        assert(bit_seq(output) =~= shape.tree_bits() + encode_symbols(content@.take(0), shape));
    }
    while k < content.len()
        invariant
            k <= content@.len(),
            bit_seq(output) == shape.tree_bits() + encode_symbols(content@.take(k as int), shape),
            shape.tree_bits().len() + encode_symbols(content@, shape).len() <= usize::MAX,
            forall|c: u8| dico@.contains_key(c) <==> shape.has_leaf(c),
            forall|c: u8| shape.has_leaf(c) ==> bit_seq(#[trigger] dico@[c]) == shape.path_to(c),
            forall|j: int| 0 <= j < content@.len() ==> shape.has_leaf(#[trigger] content@[j]),
        decreases content@.len() - k,
    {
        let byte = content[k];
        proof {
            let head = content@.take(k as int);
            let one = seq![byte];
            let tail = content@.skip(k + 1);
            assert(content@.take(k + 1) =~= head + one);
            assert(content@ =~= content@.take(k + 1) + tail);
            lemma_encode_symbols_concat(head, one, shape);
            lemma_encode_symbols_concat(content@.take(k + 1), tail, shape);
            assert(one.skip(1) =~= Seq::<u8>::empty());
            assert(encode_symbols(one.skip(1), shape) =~= Seq::<bool>::empty());
            assert(encode_symbols(one, shape) =~= shape.path_to(byte));
            assert(shape.has_leaf(content@[k as int]));
        }
        match dico.get(&byte) {
            Some(code) => {
                output = append_bit_vec(output, code);
                assert(bit_seq(output) =~= shape.tree_bits() + encode_symbols(
                    content@.take(k + 1),
                    shape,
                ));
            },
            None => {
                unreached::<()>();
            },
        }
        k = k + 1;
    }
    proof {
        assert(content@.take(k as int) =~= content@);
        lemma_huffman_round_trip(content@, shape);
    }
    serialize_bit_vec(&output)
}

/// Decompresses a stream of the entropy coder: reads the tree, then reads
/// symbols until the bits are used up. The empty stream gives empty content.
///
/// The bits of the stream are counted in a `usize`, so the stream may hold
/// `usize::MAX / 8` bytes before its last one at most.
pub fn decompression_huffman(content: &[u8]) -> (bytes: Result<Vec<u8>, DecodeError>)
    requires
        8 * (content@.len() - 1) <= usize::MAX,
    ensures
        match bytes {
            Ok(v) => huffman_decode(content@) == Ok::<Seq<u8>, DecodeError>(v@),
            Err(e) => huffman_decode(content@) == Err::<Seq<u8>, DecodeError>(e),
        },
{
    if content.len() == 0 {
        return Ok(Vec::new());
    }
    let input = match deserialize_bit_vec(content) {
        Ok(bits) => bits,
        Err(e) => {
            return Err(e);
        },
    };
    let mut iter = bits_iter(&input);
    let tree: Node<u8> = match Node::decode_tree(&mut iter) {
        Ok(tree) => tree,
        Err(e) => {
            return Err(e);
        },
    };
    match &tree {
        Node::Leaf(symbol) => {
            return Err(DecodeError::MalformedTokenStream);
        },
        Node::Branch(left, right) => {},
    }
    let mut output: Vec<u8> = Vec::new();
    let ghost payload = unread(iter);
    assert(huffman_decode(content@) == decode_symbols(tree, payload));
    loop
        invariant
            tree is Branch,
            huffman_decode(content@) == decode_symbols(tree, payload),
            decode_symbols(tree, payload) == prepend_to(output@, decode_symbols(tree, unread(iter))),
        decreases unread(iter).len(),
    {
        let ghost rest = unread(iter);
        let ghost done = output@;
        proof {
            tree.lemma_walk_uses(rest);
        }
        match tree.scan(&mut iter) {
            Ok(Some(byte)) => {
                output.push(byte);
                proof {
                    let used = tree.walk(rest)->Some_0.1;
                    let tail = decode_symbols(tree, rest.skip(used as int));
                    match tail {
                        Ok(more) => {
                            assert(done + (seq![byte] + more) =~= done.push(byte) + more);
                        },
                        Err(e) => {},
                    }
                }
            },
            Ok(None) => {
                assert(done + Seq::<u8>::empty() =~= done);
                return Ok(output);
            },
            Err(err) => {
                return Err(err);
            },
        }
    }
}

/// Compresses `content` with the window codec and writes the tokens in the flat
/// form, three bytes each.
#[verifier::rlimit(40)]
pub fn compression_lz77(content: &[u8]) -> (out: Vec<u8>)
    ensures
        is_lz77_encoding(content@, unflatten_tokens(out@)),
        out@ == flatten_tokens(unflatten_tokens(out@)),
        lz77_stream_decode(out@) == Ok::<Seq<u8>, DecodeError>(content@),
{
    let lz77_coded: Vec<Token> = lz77_coding(content).collect();
    let ghost toks = lz77_coded@;
    proof {
        assert forall|i: int| 0 <= i < toks.len() implies token_packs(#[trigger] toks[i]) by {
            lemma_parse_token_ranges(content@, 0, toks, content@.len() as int, i);
        }
    }
    let mut output: Vec<u8> = Vec::new();
    let mut k: usize = 0;
    assert(output@ =~= flatten_tokens(toks.take(0)));
    while k < lz77_coded.len()
        invariant
            k <= toks.len(),
            toks == lz77_coded@,
            forall|i: int| 0 <= i < toks.len() ==> token_packs(#[trigger] toks[i]),
            output@ == flatten_tokens(toks.take(k as int)),
        decreases toks.len() - k,
    {
        let (ptr, len, byte) = lz77_coded[k];
        assert(token_packs(toks[k as int]));
        let wide: u16 = len as u16;
        let ptr_len: u16 = ptr << 4 | wide;
        let x1 = (ptr_len & 0xff) as u8;
        let x2 = ((ptr_len >> 8) & 0xff) as u8;
        proof {
            assert(ptr < 4096 && wide < 16 ==> (ptr << 4 | wide) == ptr * 16 + wide)
                by (bit_vector);
            assert((ptr_len & 0xff) == ptr_len % 256) by (bit_vector);
            assert(((ptr_len >> 8) & 0xff) == ptr_len / 256) by (bit_vector);
        }
        let ghost before = output@;
        output.push(x1);
        output.push(x2);
        output.push(byte);
        proof {
            let tok = toks[k as int];
            assert(token_bytes(tok) =~= seq![x1, x2, byte]);
            assert(output@ =~= before + token_bytes(tok));
            assert(toks.take(k + 1) =~= toks.take(k as int).push(tok));
            lemma_flatten_push(toks.take(k as int), tok);
        }
        k = k + 1;
    }
    proof {
        assert(toks.take(k as int) =~= toks);
        lemma_unflatten_flatten(toks);
        lemma_lz77_stream_round_trip(content@, toks);
    }
    output
}

/// Decompresses a flat token stream of the window codec.
pub fn decompression_lz77(content: &[u8]) -> (bytes: Result<Vec<u8>, DecodeError>)
    ensures
        match bytes {
            Ok(v) => lz77_stream_decode(content@) == Ok::<Seq<u8>, DecodeError>(v@),
            Err(e) => lz77_stream_decode(content@) == Err::<Seq<u8>, DecodeError>(e),
        },
{
    if content.len() % 3 != 0 {
        return Err(DecodeError::MalformedTokenStream);
    }
    let count = content.len() / 3;
    let mut lz77_coded: Vec<Token> = Vec::new();
    let mut k: usize = 0;
    while k < count
        invariant
            k <= count,
            3 * count == content@.len(),
            content@.len() <= usize::MAX,
            lz77_coded@.len() == k,
            forall|i: int| 0 <= i < k ==> lz77_coded@[i] == unflatten_tokens(content@)[i],
        decreases count - k,
    {
        let x1 = content[3 * k];
        let x2 = content[3 * k + 1];
        let byte = content[3 * k + 2];
        let high: u16 = x2 as u16;
        let low: u16 = x1 as u16;
        let ptr_len: u16 = (high << 8) | low;
        proof {
            assert(high < 256 && low < 256 ==> ((high << 8) | low) == high * 256 + low)
                by (bit_vector);
            assert((ptr_len >> 4) == ptr_len / 16) by (bit_vector);
            assert((ptr_len & 0b1111) == ptr_len % 16) by (bit_vector);
        }
        let triplet: Token = (ptr_len >> 4, (ptr_len & 0b1111) as u8, byte);
        assert(triplet == token_of_bytes(x1, x2, byte));
        lz77_coded.push(triplet);
        k = k + 1;
    }
    assert(lz77_coded@ =~= unflatten_tokens(content@));
    let it = lz77_decoding(lz77_coded.as_slice());
    let ghost shown = it.emitted();
    match it.collect() {
        Ok(v) => {
            assert(shown + v@ =~= v@);
            Ok(v)
        },
        Err(e) => Err(e),
    }
}

/// Compresses `content` with the dictionary codec and the entropy coder: one
/// tree for the pointers of the tokens and one for their literals, then for
/// each token the code of its pointer and the code of its literal. Empty
/// content gives an empty stream.
///
/// The bits of the stream are counted in a `usize`, so the stream must fit;
/// `bounds::lemma_lz78_stream_fits` shows that it does for every content of `n`
/// bytes with `n * n + 321 * n + 2625 <= usize::MAX`.
#[verifier::rlimit(40)]
pub fn compression_lz78(content: &[u8]) -> (out: Vec<u8>)
    requires
        lz78_stream_fits(content@),
    ensures
        content@.len() == 0 ==> out@.len() == 0,
        content@.len() > 0 ==> exists|ptree: Node<u64>, ctree: Node<u8>|
            #![trigger
                is_huffman_tree_of(lz78_pointer_counts(content@), ptree),
                is_huffman_tree_of(lz78_literal_counts(content@), ctree),
            ]
            is_huffman_tree_of(lz78_pointer_counts(content@), ptree) && is_huffman_tree_of(
                lz78_literal_counts(content@),
                ctree,
            ) && out@ == lz78_stream(content@, ptree, ctree),
        lz78_stream_decode(out@) == Ok::<Seq<u8>, DecodeError>(content@),
{
    if content.len() == 0 {
        assert(content@ =~= Seq::<u8>::empty());
        return Vec::new();
    }
    let lz78_coded: Vec<Pair> = lz78_coding(content);
    let ghost toks = lz78_coded@;
    let ghost pointers = pointers_of(toks);
    let ghost literals = literals_of(toks);
    proof {
        lemma_lz78_encode_nonempty(content@, 0, lz78_initial(), Seq::<u8>::empty());
    }
    let mut pointer_statistic: BTreeMap<u64, u64> = BTreeMap::new();
    let mut character_statistic: BTreeMap<u8, u64> = BTreeMap::new();
    let mut i: usize = 0;
    proof {
        assert(pointer_statistic@ =~= symbol_counts(pointers.take(0)));
        assert(character_statistic@ =~= symbol_counts(literals.take(0)));
    }
    while i < lz78_coded.len()
        invariant
            i <= toks.len(),
            toks == lz78_coded@,
            pointers == pointers_of(toks),
            literals == literals_of(toks),
            pointer_statistic@ == symbol_counts(pointers.take(i as int)),
            character_statistic@ == symbol_counts(literals.take(i as int)),
        decreases toks.len() - i,
    {
        let (pointer, character) = lz78_coded[i];
        proof {
            assert(pointers.take(i + 1) =~= pointers.take(i as int).push(pointer));
            assert(literals.take(i + 1) =~= literals.take(i as int).push(character));
        }
        count_symbol(&mut pointer_statistic, pointer, Ghost(pointers.take(i as int)));
        count_symbol(&mut character_statistic, character, Ghost(literals.take(i as int)));
        i = i + 1;
    }
    proof {
        assert(pointers.take(i as int) =~= pointers);
        assert(literals.take(i as int) =~= literals);
    }
    add_placeholder(&mut pointer_statistic, 0, 1);
    add_placeholder(&mut character_statistic, 0, 1);
    proof {
        lemma_occurrences(pointers, pointers[0]);
        lemma_occurrences(literals, literals[0]);
        assert(is_counted(pointer_statistic@, pointers[0]));
        assert(is_counted(character_statistic@, literals[0]));
    }
    let pointer_tree = Node::from_statistics(&pointer_statistic);
    let character_tree = Node::from_statistics(&character_statistic);
    let ghost ptree = pointer_tree;
    let ghost ctree = character_tree;
    proof {
        assert(pointer_statistic@ == lz78_pointer_counts(content@));
        assert(character_statistic@ == lz78_literal_counts(content@));
        assert(is_huffman_tree_of(lz78_pointer_counts(content@), ptree));
        assert(is_huffman_tree_of(lz78_literal_counts(content@), ctree));
        lemma_padded_tree_covers(pointers, 0u64, 1u64, ptree);
        lemma_padded_tree_covers(literals, 0u8, 1u8, ctree);
        ptree.lemma_height_below_bits();
        ctree.lemma_height_below_bits();
        assert(lz78_stream_bits(content@, ptree, ctree).len() <= usize::MAX);
        assert forall|j: int| 0 <= j < toks.len() implies ptree.has_leaf((#[trigger] toks[j]).0)
            && ctree.has_leaf(toks[j].1) by {
            assert(ptree.has_leaf(pointers[j]));
            assert(ctree.has_leaf(literals[j]));
        }
    }
    let mut output = bits_new();
    let pointer_code = pointer_tree.encode_tree();
    let character_code = character_tree.encode_tree();
    output = append_bit_vec(output, &pointer_code);
    output = append_bit_vec(output, &character_code);
    let pointer_dictionnary = pointer_tree.to_dictionnary(bits_new());
    let character_dictionnary = character_tree.to_dictionnary(bits_new());
    let mut k: usize = 0;
    proof {
        assert(toks.take(0) =~= Seq::<Pair>::empty());
        assert(bit_seq(output) =~= ptree.tree_bits() + ctree.tree_bits() + encode_pairs(
            toks.take(0),
            ptree,
            ctree,
        ));
    }
    while k < lz78_coded.len()
        invariant
            k <= toks.len(),
            toks == lz78_coded@,
            bit_seq(output) == ptree.tree_bits() + ctree.tree_bits() + encode_pairs(
                toks.take(k as int),
                ptree,
                ctree,
            ),
            ptree.tree_bits().len() + ctree.tree_bits().len() + encode_pairs(toks, ptree, ctree).len()
                <= usize::MAX,
            forall|c: u64| pointer_dictionnary@.contains_key(c) <==> ptree.has_leaf(c),
            forall|c: u64|
                ptree.has_leaf(c) ==> bit_seq(#[trigger] pointer_dictionnary@[c]) == ptree.path_to(
                    c,
                ),
            forall|c: u8| character_dictionnary@.contains_key(c) <==> ctree.has_leaf(c),
            forall|c: u8|
                ctree.has_leaf(c) ==> bit_seq(#[trigger] character_dictionnary@[c])
                    == ctree.path_to(c),
            forall|j: int|
                0 <= j < toks.len() ==> ptree.has_leaf((#[trigger] toks[j]).0) && ctree.has_leaf(
                    toks[j].1,
                ),
        decreases toks.len() - k,
    {
        let (pointer, character) = lz78_coded[k];
        proof {
            let head = toks.take(k as int);
            let one = seq![(pointer, character)];
            let tail = toks.skip(k + 1);
            assert(toks.take(k + 1) =~= head + one);
            assert(toks =~= toks.take(k + 1) + tail);
            lemma_encode_pairs_concat(head, one, ptree, ctree);
            lemma_encode_pairs_concat(toks.take(k + 1), tail, ptree, ctree);
            assert(one.skip(1) =~= Seq::<Pair>::empty());
            assert(encode_pairs(one.skip(1), ptree, ctree) =~= Seq::<bool>::empty());
            assert(encode_pairs(one, ptree, ctree) =~= ptree.path_to(pointer) + ctree.path_to(
                character,
            ));
            assert(ptree.has_leaf(toks[k as int].0) && ctree.has_leaf(toks[k as int].1));
        }
        match pointer_dictionnary.get(&pointer) {
            Some(code) => {
                output = append_bit_vec(output, code);
            },
            None => {
                unreached::<()>();
            },
        }
        match character_dictionnary.get(&character) {
            Some(code) => {
                output = append_bit_vec(output, code);
            },
            None => {
                unreached::<()>();
            },
        }
        assert(bit_seq(output) =~= ptree.tree_bits() + ctree.tree_bits() + encode_pairs(
            toks.take(k + 1),
            ptree,
            ctree,
        ));
        k = k + 1;
    }
    proof {
        assert(toks.take(k as int) =~= toks);
        lemma_lz78_stream_round_trip(content@, ptree, ctree);
    }
    serialize_bit_vec(&output)
}

/// Decompresses a stream of the dictionary pipeline: reads the two trees, then
/// reads pointer and literal in turn until the bits are used up, and decodes
/// the tokens. The empty stream gives empty content.
///
/// The bits of the stream are counted in a `usize`, so the stream may hold
/// `usize::MAX / 8` bytes before its last one at most.
#[verifier::rlimit(40)]
pub fn decompression_lz78(content: &[u8]) -> (bytes: Result<Vec<u8>, DecodeError>)
    requires
        8 * (content@.len() - 1) <= usize::MAX,
    ensures
        match bytes {
            Ok(v) => lz78_stream_decode(content@) == Ok::<Seq<u8>, DecodeError>(v@),
            Err(e) => lz78_stream_decode(content@) == Err::<Seq<u8>, DecodeError>(e),
        },
{
    if content.len() == 0 {
        return Ok(Vec::new());
    }
    let input = match deserialize_bit_vec(content) {
        Ok(bits) => bits,
        Err(e) => {
            return Err(e);
        },
    };
    let mut iter = bits_iter(&input);
    let pointer_tree: Node<u64> = match Node::decode_tree(&mut iter) {
        Ok(tree) => tree,
        Err(e) => {
            return Err(e);
        },
    };
    let character_tree: Node<u8> = match Node::decode_tree(&mut iter) {
        Ok(tree) => tree,
        Err(e) => {
            return Err(e);
        },
    };
    match &pointer_tree {
        Node::Leaf(symbol) => {
            return Err(DecodeError::MalformedTokenStream);
        },
        Node::Branch(left, right) => {},
    }
    match &character_tree {
        Node::Leaf(symbol) => {
            return Err(DecodeError::MalformedTokenStream);
        },
        Node::Branch(left, right) => {},
    }
    let mut lz78_coded: Vec<Pair> = Vec::new();
    let ghost payload = unread(iter);
    loop
        invariant_except_break
            pointer_tree is Branch,
            character_tree is Branch,
            decode_pairs(pointer_tree, character_tree, payload) == prepend_to(
                lz78_coded@,
                decode_pairs(pointer_tree, character_tree, unread(iter)),
            ),
        invariant
            lz78_stream_decode(content@) == (match decode_pairs(
                pointer_tree,
                character_tree,
                payload,
            ) {
                Err(e) => Err(e),
                Ok(toks) => lz78_decode(toks),
            }),
        ensures
            decode_pairs(pointer_tree, character_tree, payload) == Ok::<Seq<Pair>, DecodeError>(
                lz78_coded@,
            ),
        decreases unread(iter).len(),
    {
        let ghost rest = unread(iter);
        let ghost done = lz78_coded@;
        proof {
            pointer_tree.lemma_walk_uses(rest);
        }
        let pointer_code = match pointer_tree.scan(&mut iter) {
            Ok(Some(pointer)) => pointer,
            Ok(None) => {
                assert(done + Seq::<Pair>::empty() =~= done);
                break ;
            },
            Err(e) => {
                return Err(e);
            },
        };
        proof {
            character_tree.lemma_walk_uses(unread(iter));
        }
        let character_code = match character_tree.scan(&mut iter) {
            Ok(Some(character)) => character,
            Ok(None) => {
                return Err(DecodeError::UnexpectedEndOfInput);
            },
            Err(e) => {
                return Err(e);
            },
        };
        lz78_coded.push((pointer_code, character_code));
        proof {
            let used = pointer_tree.walk(rest)->Some_0.1;
            let middle = rest.skip(used as int);
            let more = character_tree.walk(middle)->Some_0.1;
            let tail = decode_pairs(pointer_tree, character_tree, middle.skip(more as int));
            match tail {
                Ok(others) => {
                    assert(done + (seq![(pointer_code, character_code)] + others) =~= done.push(
                        (pointer_code, character_code),
                    ) + others);
                },
                Err(e) => {},
            }
        }
    }
    lz78_decoding(lz78_coded.as_slice())
}

} // verus!
