//! Building a prefix-code tree from symbol counts, and reading the codes of its
//! leaves into a table.
//!
//! The tree is built by merging: every symbol with a count above zero starts as
//! a tree of its own, with its count as weight; the two lightest trees are
//! joined under a new branch, the lighter on the left, and the branch weighs
//! what both weigh together; this goes on until one tree is left. Which of
//! several equally light trees is taken is not fixed, so the contracts speak of
//! every tree that merging can end in. Each of them has the shortest code for
//! the counts: module `optimal` proves that.
//!
//! The trees wait in a vector of slots, and a priority queue holds, for each
//! tree that is not merged yet, its weight and its slot. Weights are kept in
//! 128 bits, so that adding counts of 64 bits cannot overflow.

use crate::bits::{bit_seq, bits_clone, bits_push};
use crate::huffman::Node;
use crate::min_heap::{MinHeap, Weighted};
use crate::optimal::{is_shortest_code_for, lemma_huffman_tree_is_shortest};
use crate::order::keys_are_ordered;
use bit_vec::BitVec;
use std::collections::BTreeMap;
use vstd::pervasive::unreached;
use vstd::prelude::*;
use vstd::seq_lib::{to_multiset_build, to_multiset_len, to_multiset_remove};
use vstd::std_specs::iter::IteratorSpec;

verus! {

/// Whether `c` has a count above zero in `stats`.
pub open spec fn is_counted<T>(stats: Map<T, u64>, c: T) -> bool {
    stats.contains_key(c) && stats[c] != 0
}

/// Whether `entries` lists the symbols of `stats` with a count above zero, each
/// once and with its count, in some order.
pub open spec fn is_listing_of<T>(entries: Seq<(T, u64)>, stats: Map<T, u64>) -> bool {
    &&& forall|i: int|
        0 <= i < entries.len() ==> is_counted(stats, (#[trigger] entries[i]).0) && stats[entries[i].0]
            == entries[i].1
    &&& forall|c: T| #[trigger]
        is_counted(stats, c) ==> exists|i: int| 0 <= i < entries.len() && (#[trigger] entries[i]).0 == c
    &&& forall|i: int, j: int|
        0 <= i < j < entries.len() ==> (#[trigger] entries[i]).0 != (#[trigger] entries[j]).0
}

/// The trees that merging starts from: one leaf per entry, weighing its count.
pub open spec fn leaf_forest<T>(entries: Seq<(T, u64)>) -> Seq<(nat, Node<T>)> {
    Seq::new(entries.len(), |i: int| (entries[i].1 as nat, Node::Leaf(entries[i].0)))
}

/// Whether no tree of `forest` is lighter than the one at `i`.
pub open spec fn is_lightest<T>(forest: Seq<(nat, Node<T>)>, i: int) -> bool {
    &&& 0 <= i < forest.len()
    &&& forall|k: int| 0 <= k < forest.len() ==> forest[i].0 <= (#[trigger] forest[k]).0
}

/// `forest` after the tree at `i`, and the tree at `j` of what is left without
/// it, are joined under a branch that is added at the end.
pub open spec fn merge_step<T>(forest: Seq<(nat, Node<T>)>, i: int, j: int) -> Seq<
    (nat, Node<T>),
> {
    let first = forest[i];
    let others = forest.remove(i);
    let second = others[j];
    others.remove(j).push(
        (first.0 + second.0, Node::Branch(Box::new(first.1), Box::new(second.1))),
    )
}

/// Whether merging the two lightest trees of `forest`, again and again, can end
/// in `tree`.
pub open spec fn merges_to<T>(forest: Seq<(nat, Node<T>)>, tree: Node<T>) -> bool
    decreases forest.len(),
{
    if forest.len() == 0 {
        false
    } else if forest.len() == 1 {
        forest[0].1 == tree
    } else {
        exists|i: int, j: int|
            is_lightest(forest, i) && is_lightest(forest.remove(i), j) && merges_to(
                #[trigger] merge_step(forest, i, j),
                tree,
            )
    }
}

/// Whether `tree` is a tree that merging can build for the counts `stats`.
pub open spec fn is_huffman_tree_of<T>(stats: Map<T, u64>, tree: Node<T>) -> bool {
    exists|entries: Seq<(T, u64)>| #[trigger]
        is_listing_of(entries, stats) && merges_to(leaf_forest(entries), tree)
}

/// Number of leaves in all trees of `forest`.
pub open spec fn forest_leaf_count<T>(forest: Seq<(nat, Node<T>)>) -> nat
    decreases forest.len(),
{
    if forest.len() == 0 {
        0
    } else {
        forest_leaf_count(forest.drop_last()) + forest.last().1.leaf_count()
    }
}

/// Weight of all trees of `forest` together.
pub open spec fn forest_weight<T>(forest: Seq<(nat, Node<T>)>) -> nat
    decreases forest.len(),
{
    if forest.len() == 0 {
        0
    } else {
        forest_weight(forest.drop_last()) + forest.last().0
    }
}

/// Whether some tree of `forest` has a leaf that holds `c`.
pub open spec fn forest_has_leaf<T>(forest: Seq<(nat, Node<T>)>, c: T) -> bool {
    exists|k: int| 0 <= k < forest.len() && (#[trigger] forest[k]).1.has_leaf(c)
}

/// Taking a tree out of a forest takes out its leaves and its weight.
pub proof fn lemma_forest_remove<T>(forest: Seq<(nat, Node<T>)>, i: int)
    requires
        0 <= i < forest.len(),
    ensures
        forest.remove(i).len() == forest.len() - 1,
        forest_leaf_count(forest.remove(i)) + forest[i].1.leaf_count() == forest_leaf_count(forest),
        forest_weight(forest.remove(i)) + forest[i].0 == forest_weight(forest),
    decreases forest.len(),
{
    if i == forest.len() - 1 {
        assert(forest.remove(i) =~= forest.drop_last());
    } else {
        lemma_forest_remove(forest.drop_last(), i);
        assert(forest.remove(i).drop_last() =~= forest.drop_last().remove(i));
        assert(forest.remove(i).last() == forest.last());
    }
}

/// Adding a tree to a forest adds its leaves and its weight.
pub proof fn lemma_forest_push<T>(forest: Seq<(nat, Node<T>)>, item: (nat, Node<T>))
    ensures
        forest_leaf_count(forest.push(item)) == forest_leaf_count(forest) + item.1.leaf_count(),
        forest_weight(forest.push(item)) == forest_weight(forest) + item.0,
{
    assert(forest.push(item).drop_last() =~= forest);
}

/// One merge keeps the number of leaves, the weight and the symbols of the
/// forest, and leaves one tree less.
#[verifier::rlimit(40)]
pub proof fn lemma_merge_step<T>(forest: Seq<(nat, Node<T>)>, i: int, j: int)
    requires
        0 <= i < forest.len(),
        0 <= j < forest.len() - 1,
    ensures
        merge_step(forest, i, j).len() == forest.len() - 1,
        forest_leaf_count(merge_step(forest, i, j)) == forest_leaf_count(forest),
        forest_weight(merge_step(forest, i, j)) == forest_weight(forest),
        forall|c: T| forest_has_leaf(merge_step(forest, i, j), c) <==> forest_has_leaf(forest, c),
{
    let first = forest[i];
    let others = forest.remove(i);
    let second = others[j];
    let rest = others.remove(j);
    let joined = (first.0 + second.0, Node::Branch(Box::new(first.1), Box::new(second.1)));
    let after = rest.push(joined);
    lemma_forest_remove(forest, i);
    lemma_forest_remove(others, j);
    lemma_forest_push(rest, joined);
    // where the trees of `rest` stand in `forest`
    let jj = if j < i {
        j
    } else {
        j + 1
    };
    assert(others[j] == forest[jj]);
    assert forall|c: T| forest_has_leaf(after, c) implies forest_has_leaf(forest, c) by {
        let k = choose|k: int| 0 <= k < after.len() && (#[trigger] after[k]).1.has_leaf(c);
        if k == rest.len() {
            if first.1.has_leaf(c) {
                assert(forest[i].1.has_leaf(c));
            } else {
                assert(forest[jj].1.has_leaf(c));
            }
        } else {
            let ko = if k < j {
                k
            } else {
                k + 1
            };
            assert(rest[k] == others[ko]);
            let kf = if ko < i {
                ko
            } else {
                ko + 1
            };
            assert(others[ko] == forest[kf]);
            assert(forest[kf].1.has_leaf(c));
        }
    }
    assert forall|c: T| forest_has_leaf(forest, c) implies forest_has_leaf(after, c) by {
        let k = choose|k: int| 0 <= k < forest.len() && (#[trigger] forest[k]).1.has_leaf(c);
        if k == i || k == jj {
            assert(after[rest.len() as int] == joined);
            assert(joined.1.has_leaf(c));
        } else {
            let ko = if k < i {
                k
            } else {
                k - 1
            };
            assert(others[ko] == forest[k]);
            let kr = if ko < j {
                ko
            } else {
                ko - 1
            };
            assert(rest[kr] == others[ko]);
            assert(after[kr] == rest[kr]);
            assert(after[kr].1.has_leaf(c));
        }
    }
}

/// A tree that merging ends in has the leaves of the forest it started from:
/// as many, with the same symbols. It is a branch where the forest had more
/// than one tree.
pub proof fn lemma_merges_to_keeps_leaves<T>(forest: Seq<(nat, Node<T>)>, tree: Node<T>)
    requires
        merges_to(forest, tree),
    ensures
        tree.leaf_count() == forest_leaf_count(forest),
        forall|c: T| tree.has_leaf(c) <==> forest_has_leaf(forest, c),
        forest.len() >= 2 ==> tree is Branch,
    decreases forest.len(),
{
    if forest.len() == 1 {
        assert(forest.drop_last().len() == 0);
        assert(forest_leaf_count(forest.drop_last()) == 0);
        assert(forest.last() == forest[0]);
        assert forall|c: T| tree.has_leaf(c) implies forest_has_leaf(forest, c) by {
            assert(forest[0].1.has_leaf(c));
        }
    } else {
        let (i, j) = choose|i: int, j: int|
            is_lightest(forest, i) && is_lightest(forest.remove(i), j) && merges_to(
                #[trigger] merge_step(forest, i, j),
                tree,
            );
        lemma_forest_remove(forest, i);
        lemma_merge_step(forest, i, j);
        let after = merge_step(forest, i, j);
        lemma_merges_to_keeps_leaves(after, tree);
        if after.len() == 1 {
            assert(after[0].1 is Branch);
        }
    }
}

/// The forest of leaves has one leaf per entry, and holds the symbols of the
/// entries.
pub proof fn lemma_leaf_forest<T>(entries: Seq<(T, u64)>)
    ensures
        forest_leaf_count(leaf_forest(entries)) == entries.len(),
        forall|c: T|
            forest_has_leaf(leaf_forest(entries), c) <==> exists|i: int|
                0 <= i < entries.len() && (#[trigger] entries[i]).0 == c,
    decreases entries.len(),
{
    let forest = leaf_forest(entries);
    if entries.len() > 0 {
        lemma_leaf_forest(entries.drop_last());
        assert(forest.drop_last() =~= leaf_forest(entries.drop_last()));
    }
    assert forall|c: T| forest_has_leaf(forest, c) implies exists|i: int|
        0 <= i < entries.len() && (#[trigger] entries[i]).0 == c by {
        let k = choose|k: int| 0 <= k < forest.len() && (#[trigger] forest[k]).1.has_leaf(c);
        assert(entries[k].0 == c);
    }
    assert forall|c: T|
        (exists|i: int|
            0 <= i < entries.len() && (#[trigger] entries[i]).0 == c) implies forest_has_leaf(
        forest,
        c,
    ) by {
        let i = choose|i: int| 0 <= i < entries.len() && (#[trigger] entries[i]).0 == c;
        assert(forest[i].1.has_leaf(c));
    }
}

/// A tree built for `stats` holds exactly the symbols with a count above zero,
/// and it is a lone leaf only where there is one such symbol.
pub proof fn lemma_huffman_tree_leaves<T>(stats: Map<T, u64>, tree: Node<T>)
    requires
        is_huffman_tree_of(stats, tree),
    ensures
        forall|c: T| tree.has_leaf(c) <==> is_counted(stats, c),
        forall|a: T, b: T| is_counted(stats, a) && is_counted(stats, b) && a != b ==> tree is Branch,
{
    let entries = choose|entries: Seq<(T, u64)>| #[trigger]
        is_listing_of(entries, stats) && merges_to(leaf_forest(entries), tree);
    let forest = leaf_forest(entries);
    lemma_merges_to_keeps_leaves(forest, tree);
    lemma_leaf_forest(entries);
    assert forall|c: T| tree.has_leaf(c) implies is_counted(stats, c) by {
        let i = choose|i: int| 0 <= i < entries.len() && (#[trigger] entries[i]).0 == c;
    }
    assert forall|a: T, b: T| is_counted(stats, a) && is_counted(stats, b) && a != b implies tree
        is Branch by {
        let i = choose|i: int| 0 <= i < entries.len() && (#[trigger] entries[i]).0 == a;
        let j = choose|j: int| 0 <= j < entries.len() && (#[trigger] entries[j]).0 == b;
        assert(i != j);
    }
}

/// What adding the codes of `tree`, each after the bits `word`, does to the
/// entry of `c` in a code table: a symbol of the tree gets its code, and any
/// other entry stays as it was.
pub open spec fn code_added<T>(
    before: Map<T, BitVec>,
    after: Map<T, BitVec>,
    tree: Node<T>,
    word: Seq<bool>,
    c: T,
) -> bool {
    &&& after.contains_key(c) <==> before.contains_key(c) || tree.has_leaf(c)
    &&& tree.has_leaf(c) ==> bit_seq(after[c]) == word + tree.path_to(c)
    &&& !tree.has_leaf(c) && before.contains_key(c) ==> after[c] == before[c]
}

/// Whether `after` is `before` with the codes of `tree` added, each after the
/// bits `word`.
pub open spec fn codes_added<T>(
    before: Map<T, BitVec>,
    after: Map<T, BitVec>,
    tree: Node<T>,
    word: Seq<bool>,
) -> bool {
    forall|c: T| #[trigger] code_added(before, after, tree, word, c)
}

/// Whether the queue entries `live` stand for the trees of `forest`, in the
/// same order: each entry holds the weight of its tree and the slot of `trees`
/// where the tree is kept, and no two entries name the same slot.
pub open spec fn queue_holds<T>(
    live: Seq<Weighted>,
    trees: Seq<Option<Node<T>>>,
    forest: Seq<(nat, Node<T>)>,
) -> bool {
    &&& live.len() == forest.len()
    &&& forall|k: int|
        0 <= k < live.len() ==> (#[trigger] live[k]).0 == forest[k].0 && live[k].1 < trees.len()
            && trees[live[k].1 as int] == Some(forest[k].1)
    &&& forall|a: int, b: int|
        0 <= a < b < live.len() ==> (#[trigger] live[a]).1 != (#[trigger] live[b]).1
}

/// Takes the tree out of slot `slot`, which must hold one.
fn take_tree<T>(trees: &mut Vec<Option<Node<T>>>, slot: usize) -> (tree: Node<T>)
    requires
        slot < old(trees)@.len(),
        old(trees)@[slot as int] is Some,
    ensures
        Some(tree) == old(trees)@[slot as int],
        final(trees)@ == old(trees)@.update(slot as int, None),
{
    trees.push(None);
    let taken = trees.swap_remove(slot);
    assert(trees@ =~= old(trees)@.update(slot as int, None));
    match taken {
        Some(tree) => tree,
        None => unreached(),
    }
}

/// Takes a lightest entry out of the queue, and finds the tree of the forest
/// that it stands for.
fn pop_lightest<T>(
    heap: &mut MinHeap,
    Ghost(live): Ghost<Seq<Weighted>>,
    Ghost(trees): Ghost<Seq<Option<Node<T>>>>,
    Ghost(forest): Ghost<Seq<(nat, Node<T>)>>,
) -> (found: (Weighted, Ghost<int>))
    requires
        old(heap).wf(),
        old(heap)@ == live.to_multiset(),
        queue_holds(live, trees, forest),
        forest.len() > 0,
    ensures
        final(heap).wf(),
        0 <= found.1@ < forest.len(),
        live[found.1@] == found.0,
        is_lightest(forest, found.1@),
        final(heap)@ == live.remove(found.1@).to_multiset(),
        queue_holds(live.remove(found.1@), trees, forest.remove(found.1@)),
{
    proof {
        live.to_multiset_ensures();
    }
    match heap.pop() {
        Some(entry) => {
            let ghost at = choose|k: int| 0 <= k < live.len() && live[k] == entry;
            proof {
                assert forall|k: int| 0 <= k < forest.len() implies forest[at].0 <= (
                #[trigger] forest[k]).0 by {
                    assert(live.to_multiset().contains(live[k]));
                }
                to_multiset_remove(live, at);
                let fewer = live.remove(at);
                let rest = forest.remove(at);
                assert forall|k: int| 0 <= k < fewer.len() implies (#[trigger] fewer[k]).0
                    == rest[k].0 && fewer[k].1 < trees.len() && trees[fewer[k].1 as int] == Some(
                    rest[k].1,
                ) by {
                    let from = if k < at {
                        k
                    } else {
                        k + 1
                    };
                    assert(fewer[k] == live[from]);
                    assert(rest[k] == forest[from]);
                }
                assert forall|a: int, b: int| 0 <= a < b < fewer.len() implies (
                #[trigger] fewer[a]).1 != (#[trigger] fewer[b]).1 by {
                    let from_a = if a < at {
                        a
                    } else {
                        a + 1
                    };
                    let from_b = if b < at {
                        b
                    } else {
                        b + 1
                    };
                    assert(fewer[a] == live[from_a]);
                    assert(fewer[b] == live[from_b]);
                }
            }
            (entry, Ghost(at))
        },
        None => unreached(),
    }
}

impl<T: Ord + Copy> Node<T> {
    /// Builds a tree for the counts in `statistics` by merging. Symbols with
    /// count zero are left out. At least one symbol must have a count above
    /// zero.
    #[verifier::rlimit(40)]
    pub fn from_statistics(statistics: &BTreeMap<T, u64>) -> (tree: Node<T>)
        requires
            keys_are_ordered::<T>(),
            exists|c: T| is_counted(statistics@, c),
        ensures
            is_huffman_tree_of(statistics@, tree),
            is_shortest_code_for(statistics@, tree),
    {
        let mut heap = MinHeap::new();
        let mut trees: Vec<Option<Node<T>>> = Vec::new();
        let ghost all = statistics.iter().remaining();
        let ghost mut entries: Seq<(T, u64)> = Seq::empty();
        let ghost mut picked: Seq<int> = Seq::empty();
        let ghost mut live: Seq<Weighted> = Seq::empty();
        proof {
            live.to_multiset_ensures();
            assert(live.to_multiset() =~= heap@);
        }
        for item in it: statistics.iter()
            invariant
                it.seq() == all,
                heap.wf(),
                heap@ == live.to_multiset(),
                queue_holds(live, trees@, leaf_forest(entries)),
                entries.len() == picked.len(),
                entries.len() == trees@.len(),
                forall|k: int|
                    0 <= k < entries.len() ==> 0 <= #[trigger] picked[k] < it.index() && entries[k]
                        == (*all[picked[k]].0, *all[picked[k]].1) && entries[k].1 != 0,
                forall|k1: int, k2: int|
                    0 <= k1 < k2 < picked.len() ==> #[trigger] picked[k1] < #[trigger] picked[k2],
                forall|i: int|
                    0 <= i < it.index() && *(#[trigger] all[i]).1 != 0 ==> exists|k: int|
                        0 <= k < picked.len() && #[trigger] picked[k] == i,
                forest_weight(leaf_forest(entries)) <= entries.len() * u64::MAX,
        {
            let (key, value) = item;
            let ghost i = it.index();
            let ghost old_entries = entries;
            let ghost old_picked = picked;
            let ghost old_live = live;
            assert(item == all[i]);
            if *value != 0 {
                let slot = trees.len();
                trees.push(Some(Node::Leaf(*key)));
                heap.push((*value as u128, slot));
                proof {
                    let leaf = (*value as nat, Node::<T>::Leaf(*key));
                    entries = old_entries.push((*key, *value));
                    picked = old_picked.push(i);
                    live = old_live.push((*value as u128, slot));
                    to_multiset_build(old_live, (*value as u128, slot));
                    assert(leaf_forest(entries) =~= leaf_forest(old_entries).push(leaf));
                    lemma_forest_push(leaf_forest(old_entries), leaf);
                    assert(forest_weight(leaf_forest(entries)) <= entries.len() * u64::MAX) by {
                        assert((old_entries.len() + 1) * u64::MAX == old_entries.len() * u64::MAX
                            + u64::MAX) by (nonlinear_arith);
                    }
                    assert forall|k: int| 0 <= k < live.len() implies (#[trigger] live[k]).0
                        == leaf_forest(entries)[k].0 && live[k].1 < trees@.len()
                        && trees@[live[k].1 as int] == Some(leaf_forest(entries)[k].1) by {
                        if k < old_live.len() {
                            assert(old_live[k].0 == leaf_forest(old_entries)[k].0);
                        }
                    }
                    assert forall|a: int, b: int| 0 <= a < b < live.len() implies (
                    #[trigger] live[a]).1 != (#[trigger] live[b]).1 by {
                        assert(old_live[a].1 < slot);
                        if b < old_live.len() {
                            assert(old_live[a].1 != old_live[b].1);
                        }
                    }
                    assert forall|m: int| 0 <= m < i + 1 && *(#[trigger] all[m]).1
                        != 0 implies exists|k: int| 0 <= k < picked.len() && #[trigger] picked[k]
                        == m by {
                        if m == i {
                            assert(picked[picked.len() - 1] == i);
                        } else {
                            let k = choose|k: int|
                                0 <= k < old_picked.len() && #[trigger] old_picked[k] == m;
                            assert(picked[k] == m);
                        }
                    }
                    assert forall|k: int| 0 <= k < entries.len() implies 0 <= #[trigger] picked[k]
                        < i + 1 && entries[k] == (*all[picked[k]].0, *all[picked[k]].1)
                        && entries[k].1 != 0 by {
                        if k < old_entries.len() {
                            assert(0 <= old_picked[k] < i);
                        }
                    }
                    assert forall|k1: int, k2: int| 0 <= k1 < k2 < picked.len() implies
                        #[trigger] picked[k1] < #[trigger] picked[k2] by {
                        if k2 < old_picked.len() {
                            assert(old_picked[k1] < old_picked[k2]);
                        } else {
                            assert(0 <= old_picked[k1] < i);
                        }
                    }
                }
            } else {
                proof {
                    assert forall|k: int| 0 <= k < entries.len() implies 0 <= #[trigger] picked[k]
                        < i + 1 by {
                        assert(0 <= picked[k] < i);
                    }
                }
            }
        }
        let count = trees.len();
        proof {
            assert(all.no_duplicates());
            assert forall|i: int| 0 <= i < entries.len() implies is_counted(
                statistics@,
                (#[trigger] entries[i]).0,
            ) && statistics@[entries[i].0] == entries[i].1 by {
                assert(statistics@.contains_key(*all[picked[i]].0));
            }
            assert forall|c: T| #[trigger] is_counted(statistics@, c) implies exists|i: int|
                0 <= i < entries.len() && (#[trigger] entries[i]).0 == c by {
                let wanted = (&c, &statistics@[c]);
                assert(all.contains(wanted));
                let m = choose|m: int| 0 <= m < all.len() && all[m] == wanted;
                assert(*all[m].1 != 0);
                let k = choose|k: int| 0 <= k < picked.len() && #[trigger] picked[k] == m;
                assert(entries[k].0 == c);
            }
            assert forall|i: int, j: int| 0 <= i < j < entries.len() implies (
            #[trigger] entries[i]).0 != (#[trigger] entries[j]).0 by {
                let a = picked[i];
                let b = picked[j];
                if entries[i].0 == entries[j].0 {
                    assert(statistics@.contains_key(*all[a].0));
                    assert(statistics@.contains_key(*all[b].0));
                    assert(statistics@[*all[a].0] == *all[a].1);
                    assert(statistics@[*all[b].0] == *all[b].1);
                    assert(all[a] == all[b]);
                }
            }
            assert(is_listing_of(entries, statistics@));
            let c = choose|c: T| is_counted(statistics@, c);
            assert(is_counted(statistics@, c));
            assert(entries.len() > 0);
            assert(count * u64::MAX <= usize::MAX * u64::MAX) by (nonlinear_arith)
                requires
                    count <= usize::MAX,
            ;
        }
        let ghost start = leaf_forest(entries);
        let ghost mut forest = start;
        while heap.len() > 1
            invariant
                heap.wf(),
                heap@ == live.to_multiset(),
                queue_holds(live, trees@, forest),
                forest.len() >= 1,
                forall|t: Node<T>| #[trigger] merges_to(forest, t) ==> merges_to(start, t),
                forest_weight(forest) <= u128::MAX,
            decreases forest.len(),
        {
            proof {
                to_multiset_len(live);
            }
            let ghost before = forest;
            let (first, Ghost(i)) = pop_lightest::<T>(
                &mut heap,
                Ghost(live),
                Ghost(trees@),
                Ghost(forest),
            );
            proof {
                lemma_forest_remove(forest, i);
                live = live.remove(i);
                forest = forest.remove(i);
                to_multiset_len(live);
            }
            let (second, Ghost(j)) = pop_lightest::<T>(
                &mut heap,
                Ghost(live),
                Ghost(trees@),
                Ghost(forest),
            );
            proof {
                lemma_forest_remove(forest, j);
                live = live.remove(j);
                forest = forest.remove(j);
            }
            let a = take_tree(&mut trees, first.1);
            let b = take_tree(&mut trees, second.1);
            let slot = trees.len();
            let joined = Node::Branch(Box::new(a), Box::new(b));
            trees.push(Some(joined));
            let total: u128 = first.0 + second.0;
            heap.push((total, slot));
            proof {
                let entry = (total, slot);
                let tree = (total as nat, joined);
                to_multiset_build(live, entry);
                let fewer = live;
                let rest = forest;
                live = live.push(entry);
                forest = forest.push(tree);
                lemma_forest_push(rest, tree);
                lemma_merge_step(before, i, j);
                assert(forest =~= merge_step(before, i, j));
                assert forall|k: int| 0 <= k < live.len() implies (#[trigger] live[k]).0
                    == forest[k].0 && live[k].1 < trees@.len() && trees@[live[k].1 as int] == Some(
                    forest[k].1,
                ) by {
                    if k < fewer.len() {
                        assert(fewer[k].0 == rest[k].0);
                    }
                }
                assert forall|x: int, y: int| 0 <= x < y < live.len() implies (
                #[trigger] live[x]).1 != (#[trigger] live[y]).1 by {
                    assert(fewer[x].1 < slot);
                    if y < fewer.len() {
                        assert(fewer[x].1 != fewer[y].1);
                    }
                }
                assert forall|t: Node<T>| #[trigger] merges_to(forest, t) implies merges_to(
                    start,
                    t,
                ) by {
                    assert(merges_to(merge_step(before, i, j), t));
                    assert(merges_to(before, t));
                }
            }
        }
        proof {
            to_multiset_len(live);
            assert(merges_to(forest, forest[0].1));
        }
        let (root, Ghost(at)) = pop_lightest::<T>(
            &mut heap,
            Ghost(live),
            Ghost(trees@),
            Ghost(forest),
        );
        let tree = take_tree(&mut trees, root.1);
        proof {
            assert(is_huffman_tree_of(statistics@, tree));
            lemma_huffman_tree_is_shortest(statistics@, tree);
        }
        tree
    }

    /// Adds the code of every leaf of this tree to `book`, each code after the
    /// bits of `current_word`. A symbol that `book` holds already gets the new
    /// code.
    fn fill_dictionnary(&self, current_word: BitVec, book: &mut BTreeMap<T, BitVec>)
        requires
            keys_are_ordered::<T>(),
            bit_seq(current_word).len() + self.height() <= usize::MAX,
        ensures
            codes_added(old(book)@, final(book)@, *self, bit_seq(current_word)),
        decreases self,
    {
        let ghost start = book@;
        let ghost word = bit_seq(current_word);
        match self {
            Node::Leaf(character) => {
                assert(word + self.path_to(*character) =~= word);
                book.insert(*character, current_word);
                assert(forall|c: T| self.has_leaf(c) <==> c == *character);
            },
            Node::Branch(left_path, right_path) => {
                let mut left_path_word = bits_clone(&current_word);
                bits_push(&mut left_path_word, false);
                left_path.fill_dictionnary(left_path_word, book);
                let ghost middle = book@;
                let mut right_path_word = current_word;
                bits_push(&mut right_path_word, true);
                right_path.fill_dictionnary(right_path_word, book);
                proof {
                    let after = book@;
                    assert forall|c: T| #[trigger] code_added(start, after, *self, word, c) by {
                        assert(code_added(start, middle, **left_path, word.push(false), c));
                        assert(code_added(middle, after, **right_path, word.push(true), c));
                        if right_path.has_leaf(c) {
                            assert(word.push(true) + right_path.path_to(c) =~= word + (seq![true]
                                + right_path.path_to(c)));
                        } else {
                            assert(word.push(false) + left_path.path_to(c) =~= word + (seq![false]
                                + left_path.path_to(c)));
                        }
                    }
                }
            },
        }
    }

    /// The code table of the tree: each symbol that a leaf holds, with its
    /// code after the bits of `current_word`.
    pub fn to_dictionnary(self, current_word: BitVec) -> (book: BTreeMap<T, BitVec>)
        requires
            keys_are_ordered::<T>(),
            bit_seq(current_word).len() + self.height() <= usize::MAX,
        ensures
            forall|c: T| book@.contains_key(c) <==> self.has_leaf(c),
            forall|c: T|
                self.has_leaf(c) ==> bit_seq(#[trigger] book@[c]) == bit_seq(current_word)
                    + self.path_to(c),
    {
        let mut book: BTreeMap<T, BitVec> = BTreeMap::new();
        let ghost empty = book@;
        self.fill_dictionnary(current_word, &mut book);
        proof {
            assert forall|c: T| book@.contains_key(c) <==> self.has_leaf(c) by {
                assert(code_added(empty, book@, self, bit_seq(current_word), c));
            }
            assert forall|c: T| self.has_leaf(c) implies bit_seq(#[trigger] book@[c]) == bit_seq(
                current_word,
            ) + self.path_to(c) by {
                assert(code_added(empty, book@, self, bit_seq(current_word), c));
            }
        }
        book
    }
}

} // verus!
