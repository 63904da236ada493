//! How long the compressed streams can get. The compressing functions ask that
//! the number of bits of their stream can be counted in a `usize`; the lemmas
//! here give conditions on the length of the content under which that holds.

use crate::huffman::{IntoBitVec, Node};
use crate::huffman_build::{
    is_counted, is_huffman_tree_of, is_listing_of, leaf_forest, lemma_leaf_forest,
    lemma_merges_to_keeps_leaves, merges_to,
};
use crate::lz_78::{lz78_encode, lz78_encode_from, lz78_initial, Pair};
use crate::stream::{
    encode_pairs, encode_symbols, huffman_counts, huffman_stream_fits, lemma_symbol_counts_dom,
    lz78_literal_counts, lz78_pointer_counts, lz78_stream_bits, lz78_stream_fits, pointers_of,
    symbol_counts, with_placeholder,
};
use vstd::prelude::*;
use vstd::set_lib::lemma_len_subset;

verus! {

/// The symbols of a listing.
pub open spec fn keys_of<T>(entries: Seq<(T, u64)>) -> Seq<T> {
    Seq::new(entries.len(), |i: int| entries[i].0)
}

/// A listing of counts has no more entries than the counts have symbols.
pub proof fn lemma_listing_len<T>(entries: Seq<(T, u64)>, stats: Map<T, u64>)
    requires
        is_listing_of(entries, stats),
        stats.dom().finite(),
    ensures
        entries.len() <= stats.dom().len(),
{
    let keys = keys_of(entries);
    assert forall|i: int, j: int| 0 <= i < keys.len() && 0 <= j < keys.len() && i != j implies keys[i]
        != keys[j] by {
        if i < j {
            assert(entries[i].0 != entries[j].0);
        } else {
            assert(entries[j].0 != entries[i].0);
        }
    }
    keys.unique_seq_to_set();
    assert forall|c: T| keys.to_set().contains(c) implies stats.dom().contains(c) by {
        let i = choose|i: int| 0 <= i < keys.len() && keys[i] == c;
        assert(is_counted(stats, entries[i].0));
    }
    lemma_len_subset(keys.to_set(), stats.dom());
}

/// A tree built for counts has no more leaves than the counts have symbols.
pub proof fn lemma_huffman_tree_leaf_count<T>(stats: Map<T, u64>, tree: Node<T>)
    requires
        is_huffman_tree_of(stats, tree),
        stats.dom().finite(),
    ensures
        0 < tree.leaf_count() <= stats.dom().len(),
{
    let entries = choose|entries: Seq<(T, u64)>| #[trigger]
        is_listing_of(entries, stats) && merges_to(leaf_forest(entries), tree);
    lemma_merges_to_keeps_leaves(leaf_forest(entries), tree);
    lemma_leaf_forest(entries);
    lemma_listing_len(entries, stats);
    tree.lemma_height_below_leaf_count();
}

/// A set of bytes is finite and has at most 256 elements.
pub proof fn lemma_byte_set_len(s: Set<u8>)
    ensures
        s.finite(),
        s.len() <= 256,
{
    let all = Seq::new(256, |i: int| i as u8);
    vstd::seq_lib::seq_to_set_is_finite(all);
    all.lemma_cardinality_of_set();
    assert forall|b: u8| s.contains(b) implies all.to_set().contains(b) by {
        assert(all[b as int] == b);
    }
    lemma_len_subset(s, all.to_set());
}

/// Adding the placeholder keeps the counts finite and adds at most one symbol.
pub proof fn lemma_with_placeholder_dom<T>(stats: Map<T, u64>, first: T, second: T)
    requires
        stats.dom().finite(),
    ensures
        with_placeholder(stats, first, second).dom().finite(),
        with_placeholder(stats, first, second).dom().len() <= stats.dom().len() + 1,
{
    if stats.dom().len() == 1 {
        let extra = if stats.contains_key(first) {
            second
        } else {
            first
        };
        assert(stats.insert(extra, 1).dom() =~= stats.dom().insert(extra));
        vstd::set::axiom_set_insert_len(stats.dom(), extra);
    }
}

/// The encoding of a tree takes one bit per node and one pattern per leaf.
pub proof fn lemma_tree_bits_len<T: IntoBitVec>(tree: Node<T>)
    ensures
        tree.tree_bits().len() == tree.leaf_count() * (T::bit_width() + 2) - 1,
    decreases tree,
{
    match tree {
        Node::Leaf(x) => {
            x.lemma_to_bits_len();
            assert(tree.leaf_count() == 1);
            assert(1 * (T::bit_width() + 2) == T::bit_width() + 2);
        },
        Node::Branch(left, right) => {
            lemma_tree_bits_len(*left);
            lemma_tree_bits_len(*right);
            let w = T::bit_width() + 2;
            assert((left.leaf_count() + right.leaf_count()) * w == left.leaf_count() * w
                + right.leaf_count() * w) by (nonlinear_arith);
        },
    }
}

/// The codes of a run of symbols take no more bits than the tree is high, for
/// each symbol.
pub proof fn lemma_encode_symbols_len<T>(content: Seq<T>, tree: Node<T>)
    ensures
        encode_symbols(content, tree).len() <= content.len() * tree.height(),
    decreases content.len(),
{
    if content.len() > 0 {
        lemma_encode_symbols_len(content.skip(1), tree);
        tree.lemma_path_len(content[0]);
        let h = tree.height();
        assert((content.len() - 1) * h + h == content.len() * h) by (nonlinear_arith);
    }
}

/// The stream of the entropy coder fits where 255 bits for each byte of the
/// content and 2559 bits for the tree can be counted in a `usize`.
pub proof fn lemma_huffman_stream_fits(content: Seq<u8>)
    requires
        255 * content.len() + 2559 <= usize::MAX,
    ensures
        huffman_stream_fits(content),
{
    let stats = huffman_counts(content);
    assert forall|tree: Node<u8>| #[trigger] is_huffman_tree_of(stats, tree) implies tree.tree_bits().len()
        + encode_symbols(content, tree).len() <= usize::MAX by {
        lemma_byte_set_len(stats.dom());
        lemma_huffman_tree_leaf_count(stats, tree);
        lemma_tree_bits_len(tree);
        lemma_encode_symbols_len(content, tree);
        tree.lemma_height_below_leaf_count();
        let leaves = tree.leaf_count();
        let h = tree.height();
        assert(leaves * 10 - 1 <= 2559) by (nonlinear_arith)
            requires
                leaves <= 256,
        ;
        assert(content.len() * h <= 255 * content.len()) by (nonlinear_arith)
            requires
                h <= 255,
        ;
    }
}

/// The dictionary codec emits no more tokens than there are bytes left, and one
/// more for a phrase that is left.
pub proof fn lemma_lz78_encode_len(x: Seq<u8>, i: int, phrases: Seq<Seq<u8>>, word: Seq<u8>)
    requires
        0 <= i <= x.len(),
    ensures
        lz78_encode_from(x, i, phrases, word).len() <= x.len() - i + (if word.len() > 0 {
            1int
        } else {
            0int
        }),
    decreases x.len() - i,
{
    if i < x.len() {
        let longer = word.push(x[i]);
        if phrases.contains(longer) {
            lemma_lz78_encode_len(x, i + 1, phrases, longer);
        } else {
            lemma_lz78_encode_len(x, i + 1, phrases.push(longer), Seq::<u8>::empty());
        }
    }
}

/// The codes of a run of tokens take no more bits than both trees are high, for
/// each token.
pub proof fn lemma_encode_pairs_len(toks: Seq<Pair>, ptree: Node<u64>, ctree: Node<u8>)
    ensures
        encode_pairs(toks, ptree, ctree).len() <= toks.len() * (ptree.height() + ctree.height()),
    decreases toks.len(),
{
    if toks.len() > 0 {
        lemma_encode_pairs_len(toks.skip(1), ptree, ctree);
        ptree.lemma_path_len(toks[0].0);
        ctree.lemma_path_len(toks[0].1);
        let h = ptree.height() + ctree.height();
        assert((toks.len() - 1) * h + h == toks.len() * h) by (nonlinear_arith);
    }
}

/// The stream of the dictionary pipeline fits where, for a content of `n`
/// bytes, `n * n + 321 * n + 2625` can be counted in a `usize`.
pub proof fn lemma_lz78_stream_fits(content: Seq<u8>)
    requires
        content.len() * content.len() + 321 * content.len() + 2625 <= usize::MAX,
    ensures
        lz78_stream_fits(content),
{
    let n = content.len();
    let toks = lz78_encode(content);
    let m = toks.len();
    lemma_lz78_encode_len(content, 0, lz78_initial(), Seq::<u8>::empty());
    assert(n < u64::MAX) by (nonlinear_arith)
        requires
            n * n + 321 * n + 2625 <= usize::MAX,
            usize::MAX <= u64::MAX,
    ;
    let pstats = lz78_pointer_counts(content);
    let cstats = lz78_literal_counts(content);
    assert forall|ptree: Node<u64>, ctree: Node<u8>|
        #![trigger is_huffman_tree_of(pstats, ptree), is_huffman_tree_of(cstats, ctree)]
        is_huffman_tree_of(pstats, ptree) && is_huffman_tree_of(cstats, ctree) implies lz78_stream_bits(
        content,
        ptree,
        ctree,
    ).len() <= usize::MAX by {
        let pointers = pointers_of(toks);
        lemma_symbol_counts_dom(pointers);
        pointers.lemma_cardinality_of_set();
        lemma_with_placeholder_dom(symbol_counts(pointers), 0u64, 1u64);
        lemma_huffman_tree_leaf_count(pstats, ptree);
        lemma_byte_set_len(cstats.dom());
        lemma_huffman_tree_leaf_count(cstats, ctree);
        lemma_tree_bits_len(ptree);
        lemma_tree_bits_len(ctree);
        lemma_encode_pairs_len(toks, ptree, ctree);
        ptree.lemma_height_below_leaf_count();
        ctree.lemma_height_below_leaf_count();
        let lp = ptree.leaf_count();
        let lc = ctree.leaf_count();
        let h = ptree.height() + ctree.height();
        assert(lp <= m + 1);
        assert(lc <= 256);
        assert(h <= m + 255);
        assert(lp * 66 - 1 + (lc * 10 - 1) + m * h <= n * n + 321 * n + 2625) by (nonlinear_arith)
            requires
                lp <= m + 1,
                lc <= 256,
                h <= m + 255,
                m <= n,
                0 <= h,
                0 < lp,
                0 < lc,
        ;
    }
}

} // verus!
