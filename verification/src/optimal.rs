//! Why merging the two lightest trees gives a code of least weighted length:
//! no other way of joining the same trees in pairs gives the symbols shorter
//! codes on the whole, where the length of each code counts as often as its
//! symbol occurs.
//!
//! The proof works on numbers alone. A code for `n` weights is given by the
//! depths of its `n` leaves, and depths are those of a binary tree exactly
//! where the halves, quarters and so on that they stand for add up to one
//! (counted here in units of `2^-top`). Among such depths two deepest can be
//! given to the two lightest weights at no cost, and joining those two leaves
//! leaves a code for one weight less.

use crate::huffman::Node;
use crate::huffman_build::{is_lightest, is_listing_of, leaf_forest, merge_step, merges_to};
use vstd::arithmetic::mul::lemma_mul_equality_converse;
use vstd::arithmetic::power2::{lemma_pow2_adds, lemma_pow2_pos, lemma_pow2_unfold, pow2};
use vstd::prelude::*;

verus! {

/// The weighted length of a code: each weight times the depth of its leaf.
pub open spec fn depth_cost(w: Seq<nat>, d: Seq<nat>) -> nat
    decreases w.len(),
{
    if w.len() == 0 {
        0
    } else {
        depth_cost(w.drop_last(), d.drop_last()) + w.last() * d.last()
    }
}

/// The share of the whole that leaves at the depths `d` take, in units of
/// `2^-top`: a leaf at depth `k` takes `2^(top - k)` units.
pub open spec fn kraft(d: Seq<nat>, top: nat) -> nat
    decreases d.len(),
{
    if d.len() == 0 {
        0
    } else {
        kraft(d.drop_last(), top) + pow2((top - d.last()) as nat)
    }
}

/// Whether no depth is above `top`.
pub open spec fn within(d: Seq<nat>, top: nat) -> bool {
    forall|k: int| 0 <= k < d.len() ==> #[trigger] d[k] <= top
}

/// Whether `d` are the depths of the leaves of a binary tree in which every
/// branch has two subtrees: the leaves take the whole, no more and no less.
pub open spec fn is_code(d: Seq<nat>, top: nat) -> bool {
    &&& d.len() > 0
    &&& within(d, top)
    &&& kraft(d, top) == pow2(top)
}

/// Taking one leaf out takes its weighted depth out of the length.
pub proof fn lemma_depth_cost_remove(w: Seq<nat>, d: Seq<nat>, i: int)
    requires
        w.len() == d.len(),
        0 <= i < w.len(),
    ensures
        depth_cost(w.remove(i), d.remove(i)) + w[i] * d[i] == depth_cost(w, d),
    decreases w.len(),
{
    if i == w.len() - 1 {
        assert(w.remove(i) =~= w.drop_last());
        assert(d.remove(i) =~= d.drop_last());
    } else {
        lemma_depth_cost_remove(w.drop_last(), d.drop_last(), i);
        assert(w.remove(i).drop_last() =~= w.drop_last().remove(i));
        assert(d.remove(i).drop_last() =~= d.drop_last().remove(i));
        assert(w.remove(i).last() == w.last());
        assert(d.remove(i).last() == d.last());
    }
}

/// Taking one leaf out takes its share out.
pub proof fn lemma_kraft_remove(d: Seq<nat>, top: nat, i: int)
    requires
        0 <= i < d.len(),
    ensures
        kraft(d.remove(i), top) + pow2((top - d[i]) as nat) == kraft(d, top),
    decreases d.len(),
{
    if i == d.len() - 1 {
        assert(d.remove(i) =~= d.drop_last());
    } else {
        lemma_kraft_remove(d.drop_last(), top, i);
        assert(d.remove(i).drop_last() =~= d.drop_last().remove(i));
        assert(d.remove(i).last() == d.last());
    }
}

/// Counting in units half as large doubles every share.
pub proof fn lemma_kraft_finer(d: Seq<nat>, top: nat)
    requires
        within(d, top),
    ensures
        kraft(d, top + 1) == 2 * kraft(d, top),
    decreases d.len(),
{
    if d.len() > 0 {
        assert(within(d.drop_last(), top)) by {
            assert forall|k: int| 0 <= k < d.drop_last().len() implies #[trigger] d.drop_last()[k]
                <= top by {
                assert(d[k] <= top);
            }
        }
        lemma_kraft_finer(d.drop_last(), top);
        assert(d.last() <= top) by {
            assert(d[d.len() - 1] <= top);
        }
        lemma_pow2_unfold((top + 1 - d.last()) as nat);
    }
}

/// Leaves no deeper than `low` take a whole number of the units of `low`: in
/// the units of `top` their share is that of `low`, times `2^(top - low)`.
pub proof fn lemma_kraft_rescale(d: Seq<nat>, low: nat, top: nat)
    requires
        within(d, low),
        low <= top,
    ensures
        kraft(d, top) == pow2((top - low) as nat) * kraft(d, low),
    decreases d.len(),
{
    let u = pow2((top - low) as nat);
    if d.len() == 0 {
        assert(u * 0 == 0);
    } else {
        assert(within(d.drop_last(), low)) by {
            assert forall|k: int| 0 <= k < d.drop_last().len() implies #[trigger] d.drop_last()[k]
                <= low by {
                assert(d[k] <= low);
            }
        }
        lemma_kraft_rescale(d.drop_last(), low, top);
        assert(d.last() <= low) by {
            assert(d[d.len() - 1] <= low);
        }
        lemma_pow2_adds((top - low) as nat, (low - d.last()) as nat);
        let a = kraft(d.drop_last(), low);
        let b = pow2((low - d.last()) as nat);
        assert(u * (a + b) == u * a + u * b) by (nonlinear_arith);
    }
}

/// Some leaf is deepest.
pub proof fn lemma_has_deepest(d: Seq<nat>) -> (m: int)
    requires
        d.len() > 0,
    ensures
        0 <= m < d.len(),
        within(d, d[m]),
    decreases d.len(),
{
    if d.len() == 1 {
        0
    } else {
        let before = lemma_has_deepest(d.drop_last());
        let m = if d.drop_last()[before] < d.last() {
            d.len() - 1
        } else {
            before
        };
        assert forall|k: int| 0 <= k < d.len() implies #[trigger] d[k] <= d[m] by {
            if k < d.len() - 1 {
                assert(d.drop_last()[k] <= d.drop_last()[before]);
            }
        }
        m
    }
}

/// In a code with two leaves or more, the deepest leaf is not alone at its
/// depth, and that depth is not zero.
#[verifier::rlimit(40)]
pub proof fn lemma_two_deepest(d: Seq<nat>, top: nat, m: int) -> (other: int)
    requires
        is_code(d, top),
        d.len() >= 2,
        0 <= m < d.len(),
        within(d, d[m]),
    ensures
        0 <= other < d.len(),
        other != m,
        d[other] == d[m],
        d[m] >= 1,
{
    let deep = d[m];
    let rest = d.remove(m);
    lemma_kraft_remove(d, top, m);
    assert(deep <= top) by {
        assert(d[m] <= top);
    }
    let u = pow2((top - deep) as nat);
    lemma_pow2_pos((top - deep) as nat);
    lemma_pow2_adds((top - deep) as nat, deep);
    if exists|k: int| 0 <= k < d.len() && k != m && d[k] == deep {
        let other = choose|k: int| 0 <= k < d.len() && k != m && d[k] == deep;
        if deep == 0 {
            // every leaf at depth zero takes the whole
            lemma_kraft_remove(rest, top, if other < m {
                other
            } else {
                other - 1
            });
            assert(false);
        }
        other
    } else {
        if deep == 0 {
            let k = if m == 0 {
                1int
            } else {
                0int
            };
            assert(d[k] <= d[m]);
            assert(false);
        }
        let low = (deep - 1) as nat;
        assert(within(rest, low)) by {
            assert forall|k: int| 0 <= k < rest.len() implies #[trigger] rest[k] <= low by {
                let from = if k < m {
                    k
                } else {
                    k + 1
                };
                assert(rest[k] == d[from]);
                assert(d[from] <= deep);
            }
        }
        lemma_kraft_rescale(rest, low, top);
        lemma_pow2_unfold((top - low) as nat);
        lemma_pow2_unfold(deep);
        // the whole is an even number of the units of the deepest leaf, the
        // other leaves take an even number of them, and the deepest takes one
        let others = kraft(rest, low);
        let half = pow2(low);
        assert(pow2((top - low) as nat) == 2 * u);
        assert(u * (2 * others + 1) == u * (2 * half)) by (nonlinear_arith)
            requires
                (2 * u) * others + u == u * (2 * half),
        ;
        lemma_mul_equality_converse(u as int, (2 * others + 1) as int, (2 * half) as int);
        assert(false);
        0
    }
}


/// Exchanging the depths of two leaves, so that the lighter of them comes to
/// lie deeper, keeps the shares and does not make the code longer.
pub proof fn lemma_exchange_depths(w: Seq<nat>, d: Seq<nat>, top: nat, i: int, p: int)
    requires
        w.len() == d.len(),
        0 <= i < d.len(),
        0 <= p < d.len(),
        i != p,
        w[i] <= w[p],
        d[i] <= d[p],
    ensures
        kraft(d.update(i, d[p]).update(p, d[i]), top) == kraft(d, top),
        depth_cost(w, d.update(i, d[p]).update(p, d[i])) <= depth_cost(w, d),
{
    let e = d.update(i, d[p]).update(p, d[i]);
    let at = if p < i {
        p
    } else {
        p - 1
    };
    lemma_kraft_remove(d, top, i);
    lemma_kraft_remove(d.remove(i), top, at);
    lemma_kraft_remove(e, top, i);
    lemma_kraft_remove(e.remove(i), top, at);
    assert(d.remove(i)[at] == d[p]);
    assert(e.remove(i)[at] == e[p]);
    assert(e.remove(i).remove(at) =~= d.remove(i).remove(at));
    lemma_depth_cost_remove(w, d, i);
    lemma_depth_cost_remove(w.remove(i), d.remove(i), at);
    lemma_depth_cost_remove(w, e, i);
    lemma_depth_cost_remove(w.remove(i), e.remove(i), at);
    assert(w.remove(i)[at] == w[p]);
    let (wi, wp, di, dp) = (w[i] as int, w[p] as int, d[i] as int, d[p] as int);
    assert(wi * dp + wp * di <= wi * di + wp * dp) by (nonlinear_arith)
        requires
            wi <= wp,
            di <= dp,
    ;
}

/// Whether no weight of `w` is below the one at `i`.
pub open spec fn lightest_at(w: Seq<nat>, i: int) -> bool {
    &&& 0 <= i < w.len()
    &&& forall|k: int| 0 <= k < w.len() ==> w[i] <= #[trigger] w[k]
}

/// `w` after the weight at `i`, and the weight at `j` of what is left without
/// it, are replaced by their sum, which is added at the end.
pub open spec fn join_at(w: Seq<nat>, i: int, j: int) -> Seq<nat> {
    w.remove(i).remove(j).push(w[i] + w.remove(i)[j])
}

/// Whether joining the two lightest weights of `w`, again and again until one
/// is left, can cost `c` in all, where each join costs the sum it makes.
pub open spec fn greedy_cost(w: Seq<nat>, c: nat) -> bool
    decreases w.len(),
{
    if w.len() <= 1 {
        w.len() == 1 && c == 0
    } else {
        exists|i: int, j: int|
            lightest_at(w, i) && lightest_at(w.remove(i), j) && c >= w[i] + w.remove(i)[j]
                && greedy_cost(
                #[trigger] join_at(w, i, j),
                (c - w[i] - w.remove(i)[j]) as nat,
            )
    }
}

/// Exchanging the depths of two leaves keeps the depths within their bound.
pub proof fn lemma_exchange_within(d: Seq<nat>, bound: nat, i: int, p: int)
    requires
        within(d, bound),
        0 <= i < d.len(),
        0 <= p < d.len(),
    ensures
        within(d.update(i, d[p]).update(p, d[i]), bound),
{
    let e = d.update(i, d[p]).update(p, d[i]);
    assert forall|k: int| 0 <= k < e.len() implies #[trigger] e[k] <= bound by {
        assert(d[k] <= bound);
        assert(d[i] <= bound);
        assert(d[p] <= bound);
    }
}

/// A code can be changed, without making it longer, so that the leaf of the
/// weight at `i` is a deepest one, where that weight is the lightest apart from
/// the weight at `keep`; the leaf at `keep` stays where it is. `keep` is a leaf
/// that is deepest already, or none where it is negative.
pub proof fn lemma_sink_lightest(w: Seq<nat>, d: Seq<nat>, top: nat, i: int, keep: int) -> (e: Seq<
    nat,
>)
    requires
        w.len() == d.len(),
        d.len() >= 2,
        is_code(d, top),
        0 <= i < d.len(),
        keep < d.len(),
        keep != i,
        keep >= 0 ==> within(d, d[keep]),
        forall|k: int| 0 <= k < w.len() && k != keep ==> w[i] <= #[trigger] w[k],
    ensures
        e.len() == d.len(),
        is_code(e, top),
        depth_cost(w, e) <= depth_cost(w, d),
        within(e, e[i]),
        e[i] >= 1,
        keep >= 0 ==> e[keep] == d[keep] && e[i] == d[keep],
{
    let m = if keep >= 0 {
        keep
    } else {
        lemma_has_deepest(d)
    };
    let deep = d[m];
    let twin = lemma_two_deepest(d, top, m);
    if d[i] == deep {
        d
    } else {
        let p = if keep >= 0 {
            twin
        } else {
            m
        };
        assert(p != i && p != keep);
        assert(d[i] <= d[m]);
        assert(w[i] <= w[p]);
        lemma_exchange_depths(w, d, top, i, p);
        lemma_exchange_within(d, top, i, p);
        lemma_exchange_within(d, deep, i, p);
        d.update(i, d[p]).update(p, d[i])
    }
}

/// Joining two leaves of the same depth into one leaf a level higher leaves a
/// code for the joined weights, shorter by the two weights.
pub proof fn lemma_join_deepest(w: Seq<nat>, d: Seq<nat>, top: nat, i: int, j: int)
    requires
        w.len() == d.len(),
        d.len() >= 2,
        is_code(d, top),
        0 <= i < d.len(),
        0 <= j < d.len() - 1,
        d[i] >= 1,
        d.remove(i)[j] == d[i],
    ensures
        is_code(d.remove(i).remove(j).push((d[i] - 1) as nat), top),
        depth_cost(join_at(w, i, j), d.remove(i).remove(j).push((d[i] - 1) as nat)) + w[i]
            + w.remove(i)[j] == depth_cost(w, d),
{
    let deep = d[i];
    let others = w.remove(i);
    let rest_w = others.remove(j);
    let rest_d = d.remove(i).remove(j);
    let joined = rest_d.push((deep - 1) as nat);
    lemma_kraft_remove(d, top, i);
    lemma_kraft_remove(d.remove(i), top, j);
    lemma_depth_cost_remove(w, d, i);
    lemma_depth_cost_remove(others, d.remove(i), j);
    assert(joined.drop_last() =~= rest_d);
    assert(join_at(w, i, j).drop_last() =~= rest_w);
    assert(deep <= top) by {
        assert(d[i] <= top);
    }
    lemma_pow2_unfold((top - (deep - 1)) as nat);
    assert(kraft(joined, top) == pow2(top));
    assert(within(joined, top)) by {
        assert forall|k: int| 0 <= k < joined.len() implies #[trigger] joined[k] <= top by {
            if k < rest_d.len() {
                let k1 = if k < j {
                    k
                } else {
                    k + 1
                };
                let k2 = if k1 < i {
                    k1
                } else {
                    k1 + 1
                };
                assert(rest_d[k] == d.remove(i)[k1]);
                assert(d.remove(i)[k1] == d[k2]);
                assert(d[k2] <= top);
            }
        }
    }
    let (a, b, depth) = (w[i] as int, others[j] as int, deep as int);
    assert((a + b) * (depth - 1) + a + b == a * depth + b * depth) by (nonlinear_arith);
}

/// Joining the two lightest weights first costs no more than any code for the
/// weights is long.
#[verifier::rlimit(40)]
pub proof fn lemma_greedy_is_least(w: Seq<nat>, c: nat, d: Seq<nat>, top: nat)
    requires
        greedy_cost(w, c),
        is_code(d, top),
        d.len() == w.len(),
    ensures
        c <= depth_cost(w, d),
    decreases w.len(),
{
    if w.len() >= 2 {
        let (i, j) = choose|i: int, j: int|
            lightest_at(w, i) && lightest_at(w.remove(i), j) && c >= w[i] + w.remove(i)[j]
                && greedy_cost(
                #[trigger] join_at(w, i, j),
                (c - w[i] - w.remove(i)[j]) as nat,
            );
        let others = w.remove(i);
        let jj = if j < i {
            j
        } else {
            j + 1
        };
        assert(w[jj] == others[j]);
        // the lightest weight gets a deepest leaf, then the second lightest
        let d1 = lemma_sink_lightest(w, d, top, i, -1);
        assert forall|k: int| 0 <= k < w.len() && k != i implies w[jj] <= #[trigger] w[k] by {
            let at = if k < i {
                k
            } else {
                k - 1
            };
            assert(others[at] == w[k]);
            assert(others[j] <= others[at]);
        }
        let d2 = lemma_sink_lightest(w, d1, top, jj, i);
        assert(d2[jj] == d2[i]);
        assert(d2.remove(i)[j] == d2[jj]);
        lemma_join_deepest(w, d2, top, i, j);
        let d3 = d2.remove(i).remove(j).push((d2[i] - 1) as nat);
        lemma_greedy_is_least(join_at(w, i, j), (c - w[i] - others[j]) as nat, d3, top);
    }
}

/// What the leaves of a tree weigh together, where a leaf weighs the count of
/// its symbol.
pub open spec fn tree_weight<T>(tree: Node<T>, stats: Map<T, u64>) -> nat
    decreases tree,
{
    match tree {
        Node::Leaf(x) => stats[x] as nat,
        Node::Branch(left, right) => tree_weight(*left, stats) + tree_weight(*right, stats),
    }
}

/// The weighted length of the code of a tree whose root lies at `depth`: for
/// each leaf its depth, as often as its symbol is counted.
pub open spec fn weighted_length_from<T>(tree: Node<T>, stats: Map<T, u64>, depth: nat) -> nat
    decreases tree,
{
    match tree {
        Node::Leaf(x) => stats[x] as nat * depth,
        Node::Branch(left, right) => weighted_length_from(*left, stats, depth + 1)
            + weighted_length_from(*right, stats, depth + 1),
    }
}

/// The weighted length of the code of a tree: the number of bits that the
/// codes of the counted symbols take together.
pub open spec fn weighted_length<T>(tree: Node<T>, stats: Map<T, u64>) -> nat {
    weighted_length_from(tree, stats, 0)
}

/// Whether joining trees of `forest` in pairs, any two at a time, can end in
/// `tree`.
pub open spec fn joins_to<T>(forest: Seq<(nat, Node<T>)>, tree: Node<T>) -> bool
    decreases forest.len(),
{
    if forest.len() == 0 {
        false
    } else if forest.len() == 1 {
        forest[0].1 == tree
    } else {
        exists|i: int, j: int|
            0 <= i < forest.len() && 0 <= j < forest.len() - 1 && joins_to(
                #[trigger] merge_step(forest, i, j),
                tree,
            )
    }
}

/// Whether each tree of `forest` has the weight of its leaves.
pub open spec fn weights_match<T>(forest: Seq<(nat, Node<T>)>, stats: Map<T, u64>) -> bool {
    forall|k: int|
        0 <= k < forest.len() ==> (#[trigger] forest[k]).0 == tree_weight(forest[k].1, stats)
}

/// The weights of the trees of `forest`.
pub open spec fn weights_of<T>(forest: Seq<(nat, Node<T>)>) -> Seq<nat> {
    Seq::new(forest.len(), |k: int| forest[k].0)
}

/// The weighted lengths of the trees of `forest` together.
pub open spec fn forest_length<T>(forest: Seq<(nat, Node<T>)>, stats: Map<T, u64>) -> nat
    decreases forest.len(),
{
    if forest.len() == 0 {
        0
    } else {
        forest_length(forest.drop_last(), stats) + weighted_length(forest.last().1, stats)
    }
}

/// One level deeper, every leaf of the tree is one bit longer.
pub proof fn lemma_weighted_length_deeper<T>(tree: Node<T>, stats: Map<T, u64>, depth: nat)
    ensures
        weighted_length_from(tree, stats, depth + 1) == weighted_length_from(tree, stats, depth)
            + tree_weight(tree, stats),
    decreases tree,
{
    match tree {
        Node::Leaf(x) => {
            let c = stats[x] as int;
            assert(c * (depth + 1) == c * depth + c) by (nonlinear_arith);
        },
        Node::Branch(left, right) => {
            lemma_weighted_length_deeper(*left, stats, depth + 1);
            lemma_weighted_length_deeper(*right, stats, depth + 1);
        },
    }
}

/// Taking a tree out of a forest takes its weighted length out.
pub proof fn lemma_forest_length_remove<T>(
    forest: Seq<(nat, Node<T>)>,
    stats: Map<T, u64>,
    i: int,
)
    requires
        0 <= i < forest.len(),
    ensures
        forest_length(forest.remove(i), stats) + weighted_length(forest[i].1, stats)
            == forest_length(forest, stats),
    decreases forest.len(),
{
    if i == forest.len() - 1 {
        assert(forest.remove(i) =~= forest.drop_last());
    } else {
        lemma_forest_length_remove(forest.drop_last(), stats, i);
        assert(forest.remove(i).drop_last() =~= forest.drop_last().remove(i));
        assert(forest.remove(i).last() == forest.last());
    }
}

/// What one join does: the trees keep the weights of their leaves, the weights
/// are joined as the trees are, and the weighted lengths of the trees grow by
/// the weight of the new branch.
#[verifier::rlimit(40)]
pub proof fn lemma_join_step<T>(forest: Seq<(nat, Node<T>)>, stats: Map<T, u64>, i: int, j: int)
    requires
        weights_match(forest, stats),
        0 <= i < forest.len(),
        0 <= j < forest.len() - 1,
    ensures
        weights_match(merge_step(forest, i, j), stats),
        weights_of(merge_step(forest, i, j)) == join_at(weights_of(forest), i, j),
        forest_length(merge_step(forest, i, j), stats) == forest_length(forest, stats)
            + forest[i].0 + forest.remove(i)[j].0,
{
    let first = forest[i];
    let others = forest.remove(i);
    let second = others[j];
    let rest = others.remove(j);
    let joined = (first.0 + second.0, Node::Branch(Box::new(first.1), Box::new(second.1)));
    let after = merge_step(forest, i, j);
    let jj = if j < i {
        j
    } else {
        j + 1
    };
    assert(second == forest[jj]);
    assert(after == rest.push(joined));
    assert forall|k: int| 0 <= k < after.len() implies (#[trigger] after[k]).0 == tree_weight(
        after[k].1,
        stats,
    ) by {
        if k < rest.len() {
            let k1 = if k < j {
                k
            } else {
                k + 1
            };
            let k2 = if k1 < i {
                k1
            } else {
                k1 + 1
            };
            assert(rest[k] == others[k1]);
            assert(others[k1] == forest[k2]);
            assert(forest[k2].0 == tree_weight(forest[k2].1, stats));
        } else {
            assert(forest[i].0 == tree_weight(forest[i].1, stats));
            assert(forest[jj].0 == tree_weight(forest[jj].1, stats));
        }
    }
    assert(weights_of(after) =~= join_at(weights_of(forest), i, j)) by {
        assert(weights_of(forest).remove(i) =~= weights_of(others));
        assert(weights_of(others).remove(j) =~= weights_of(rest));
    }
    lemma_forest_length_remove(forest, stats, i);
    lemma_forest_length_remove(others, stats, j);
    assert(after.drop_last() =~= rest);
    lemma_weighted_length_deeper(first.1, stats, 0);
    lemma_weighted_length_deeper(second.1, stats, 0);
    assert(forest[i].0 == tree_weight(forest[i].1, stats));
    assert(forest[jj].0 == tree_weight(forest[jj].1, stats));
}

/// Merging the two lightest trees, again and again, costs what the tree it ends
/// in is longer than the trees it started from.
pub proof fn lemma_merging_cost<T>(forest: Seq<(nat, Node<T>)>, stats: Map<T, u64>, tree: Node<T>)
    requires
        weights_match(forest, stats),
        merges_to(forest, tree),
    ensures
        forest_length(forest, stats) <= weighted_length(tree, stats),
        greedy_cost(
            weights_of(forest),
            (weighted_length(tree, stats) - forest_length(forest, stats)) as nat,
        ),
    decreases forest.len(),
{
    if forest.len() == 1 {
        assert(forest.drop_last().len() == 0);
        assert(forest_length(forest.drop_last(), stats) == 0);
        assert(forest.last() == forest[0]);
    } else {
        let (i, j) = choose|i: int, j: int|
            is_lightest(forest, i) && is_lightest(forest.remove(i), j) && merges_to(
                #[trigger] merge_step(forest, i, j),
                tree,
            );
        let after = merge_step(forest, i, j);
        lemma_join_step(forest, stats, i, j);
        lemma_merging_cost(after, stats, tree);
        let w = weights_of(forest);
        assert(lightest_at(w, i)) by {
            assert forall|k: int| 0 <= k < w.len() implies w[i] <= #[trigger] w[k] by {
                assert(forest[i].0 <= forest[k].0);
            }
        }
        assert(w.remove(i) =~= weights_of(forest.remove(i)));
        assert(lightest_at(w.remove(i), j)) by {
            assert forall|k: int| 0 <= k < w.remove(i).len() implies w.remove(i)[j]
                <= #[trigger] w.remove(i)[k] by {
                assert(forest.remove(i)[j].0 <= forest.remove(i)[k].0);
            }
        }
        let c = (weighted_length(tree, stats) - forest_length(forest, stats)) as nat;
        assert(greedy_cost(join_at(w, i, j), (c - w[i] - w.remove(i)[j]) as nat));
    }
}

/// Joining trees in pairs, in any way, gives a code for their weights: depths
/// for the trees that take the whole, under which the tree it ends in is as
/// much longer than the trees it started from as the depths cost.
#[verifier::rlimit(40)]
pub proof fn lemma_joining_gives_a_code<T>(
    forest: Seq<(nat, Node<T>)>,
    stats: Map<T, u64>,
    tree: Node<T>,
) -> (code: (Seq<nat>, nat))
    requires
        weights_match(forest, stats),
        joins_to(forest, tree),
    ensures
        is_code(code.0, code.1),
        code.0.len() == forest.len(),
        depth_cost(weights_of(forest), code.0) + forest_length(forest, stats) == weighted_length(
            tree,
            stats,
        ),
    decreases forest.len(),
{
    let w = weights_of(forest);
    if forest.len() == 1 {
        let d = seq![0nat];
        assert(forest.drop_last().len() == 0);
        assert(forest_length(forest.drop_last(), stats) == 0);
        assert(forest.last() == forest[0]);
        assert(d.drop_last().len() == 0);
        assert(kraft(d.drop_last(), 0) == 0);
        assert(kraft(d, 0) == pow2(0));
        assert(w.drop_last().len() == 0);
        assert(depth_cost(w.drop_last(), d.drop_last()) == 0);
        assert(depth_cost(w, d) == 0) by {
            assert(w.last() * d.last() == 0);
        }
        (d, 0)
    } else {
        let (i, j) = choose|i: int, j: int|
            0 <= i < forest.len() && 0 <= j < forest.len() - 1 && joins_to(
                #[trigger] merge_step(forest, i, j),
                tree,
            );
        let after = merge_step(forest, i, j);
        lemma_join_step(forest, stats, i, j);
        let (d_after, top_after) = lemma_joining_gives_a_code(after, stats, tree);
        let w_after = weights_of(after);
        let rest_d = d_after.drop_last();
        let deep = d_after.last() + 1;
        let top = top_after + 1;
        let d = rest_d.insert(j, deep as nat).insert(i, deep as nat);
        assert(d.remove(i) =~= rest_d.insert(j, deep as nat));
        assert(d.remove(i).remove(j) =~= rest_d);
        assert(d[i] == deep);
        assert(d.remove(i)[j] == deep);
        // the shares
        assert(d_after.last() <= top_after) by {
            assert(d_after[d_after.len() - 1] <= top_after);
        }
        assert(within(rest_d, top_after)) by {
            assert forall|k: int| 0 <= k < rest_d.len() implies #[trigger] rest_d[k]
                <= top_after by {
                assert(d_after[k] <= top_after);
            }
        }
        lemma_kraft_finer(rest_d, top_after);
        lemma_kraft_remove(d, top, i);
        lemma_kraft_remove(d.remove(i), top, j);
        lemma_pow2_unfold(top);
        assert(within(d, top)) by {
            assert forall|k: int| 0 <= k < d.len() implies #[trigger] d[k] <= top by {
                if k != i {
                    let k1 = if k < i {
                        k
                    } else {
                        k - 1
                    };
                    assert(d[k] == d.remove(i)[k1]);
                    if k1 != j {
                        let k2 = if k1 < j {
                            k1
                        } else {
                            k1 - 1
                        };
                        assert(d.remove(i)[k1] == rest_d[k2]);
                        assert(rest_d[k2] <= top_after);
                    }
                }
            }
        }
        // the cost
        let others = w.remove(i);
        lemma_depth_cost_remove(w, d, i);
        lemma_depth_cost_remove(others, d.remove(i), j);
        assert(w_after.drop_last() =~= others.remove(j));
        assert(w_after.last() == w[i] + others[j]);
        let (a, b, low) = (w[i] as int, others[j] as int, d_after.last() as int);
        assert((a + b) * low + a + b == a * (low + 1) + b * (low + 1)) by (nonlinear_arith);
        (d, top)
    }
}

/// Merging the two lightest trees is best: the tree it ends in has a code no
/// longer than that of any tree that joining the same trees in pairs can end
/// in.
pub proof fn lemma_merging_is_optimal<T>(
    forest: Seq<(nat, Node<T>)>,
    stats: Map<T, u64>,
    tree: Node<T>,
    other: Node<T>,
)
    requires
        weights_match(forest, stats),
        merges_to(forest, tree),
        joins_to(forest, other),
    ensures
        weighted_length(tree, stats) <= weighted_length(other, stats),
{
    lemma_merging_cost(forest, stats, tree);
    let (d, top) = lemma_joining_gives_a_code(forest, stats, other);
    lemma_greedy_is_least(
        weights_of(forest),
        (weighted_length(tree, stats) - forest_length(forest, stats)) as nat,
        d,
        top,
    );
}

/// A tree built for counts by merging has the shortest code for the counts
/// that joining the counted symbols in pairs can give.
pub proof fn lemma_huffman_tree_is_optimal<T>(
    stats: Map<T, u64>,
    entries: Seq<(T, u64)>,
    tree: Node<T>,
    other: Node<T>,
)
    requires
        is_listing_of(entries, stats),
        merges_to(leaf_forest(entries), tree),
        joins_to(leaf_forest(entries), other),
    ensures
        weighted_length(tree, stats) <= weighted_length(other, stats),
{
    let forest = leaf_forest(entries);
    assert forall|k: int| 0 <= k < forest.len() implies (#[trigger] forest[k]).0 == tree_weight(
        forest[k].1,
        stats,
    ) by {
        assert(stats[entries[k].0] == entries[k].1);
    }
    lemma_merging_is_optimal(forest, stats, tree, other);
}


/// Whether `tree` is built for the counts `stats` by merging, and has the
/// shortest code that joining the counted symbols in pairs can give: no tree
/// that joining can end in takes fewer bits for the counted symbols together.
pub open spec fn is_shortest_code_for<T>(stats: Map<T, u64>, tree: Node<T>) -> bool {
    exists|entries: Seq<(T, u64)>|
        {
            &&& #[trigger] is_listing_of(entries, stats)
            &&& merges_to(leaf_forest(entries), tree)
            &&& forall|other: Node<T>| #[trigger]
                joins_to(leaf_forest(entries), other) ==> weighted_length(tree, stats)
                    <= weighted_length(other, stats)
        }
}

/// Every tree built for counts by merging has the shortest code.
pub proof fn lemma_huffman_tree_is_shortest<T>(stats: Map<T, u64>, tree: Node<T>)
    requires
        crate::huffman_build::is_huffman_tree_of(stats, tree),
    ensures
        is_shortest_code_for(stats, tree),
{
    let entries = choose|entries: Seq<(T, u64)>| #[trigger]
        is_listing_of(entries, stats) && merges_to(leaf_forest(entries), tree);
    assert forall|other: Node<T>| #[trigger] joins_to(leaf_forest(entries), other) implies
        weighted_length(tree, stats) <= weighted_length(other, stats) by {
        lemma_huffman_tree_is_optimal(stats, entries, tree, other);
    }
    assert(is_listing_of(entries, stats));
}

} // verus!
