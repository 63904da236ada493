//! A priority queue of weighted entries that hands out a lightest entry first:
//! a binary heap in a vector, where no entry is lighter than the one at half
//! its place.

use vstd::multiset::Multiset;
use vstd::prelude::*;
use vstd::seq_lib::{to_multiset_build, to_multiset_remove, to_multiset_update};

verus! {

/// An entry: its weight, and a number that says what it stands for.
pub type Weighted = (u128, usize);

/// A priority queue by weight, lightest first.
pub struct MinHeap {
    items: Vec<Weighted>,
}

/// The place above place `k` in the heap.
pub open spec fn parent_of(k: int) -> int {
    (k - 1) / 2
}

/// Whether every entry but the first weighs at least what the entry above it
/// weighs.
pub open spec fn heap_ordered(s: Seq<Weighted>) -> bool {
    forall|k: int| 0 < k < s.len() ==> s[parent_of(k)].0 <= (#[trigger] s[k]).0
}

/// Whether `s` is ordered but for the entry at `hole`, which may be lighter
/// than the entry above it; the entries below `hole` weigh at least what the
/// entry above `hole` weighs.
pub open spec fn ordered_above(s: Seq<Weighted>, hole: int) -> bool {
    &&& forall|k: int|
        0 < k < s.len() && k != hole ==> s[parent_of(k)].0 <= (#[trigger] s[k]).0
    &&& forall|k: int|
        0 < k < s.len() && parent_of(k) == hole && hole > 0 ==> s[parent_of(hole)].0 <= (
        #[trigger] s[k]).0
}

/// Whether `s` is ordered but for the entry at `hole`, which may be heavier
/// than the entries below it; the entries below `hole` weigh at least what the
/// entry above `hole` weighs.
pub open spec fn ordered_below(s: Seq<Weighted>, hole: int) -> bool {
    &&& forall|k: int|
        0 < k < s.len() && parent_of(k) != hole ==> s[parent_of(k)].0 <= (#[trigger] s[k]).0
    &&& forall|k: int|
        0 < k < s.len() && parent_of(k) == hole && hole > 0 ==> s[parent_of(hole)].0 <= (
        #[trigger] s[k]).0
}

/// In an ordered heap no entry is lighter than the first.
pub proof fn lemma_first_is_lightest(s: Seq<Weighted>, k: int)
    requires
        heap_ordered(s),
        0 <= k < s.len(),
    ensures
        s[0].0 <= s[k].0,
    decreases k,
{
    if k > 0 {
        lemma_first_is_lightest(s, parent_of(k));
        assert(s[parent_of(k)].0 <= s[k].0);
    }
}

/// Exchanging two entries keeps what the heap holds.
pub proof fn lemma_exchange_keeps_entries(s: Seq<Weighted>, i: int, j: int)
    requires
        0 <= i < s.len(),
        0 <= j < s.len(),
    ensures
        s.update(i, s[j]).update(j, s[i]).to_multiset() == s.to_multiset(),
{
    broadcast use vstd::multiset::group_multiset_axioms;

    let once = s.update(i, s[j]);
    s.to_multiset_ensures();
    assert(s.to_multiset().count(s[i]) > 0);
    assert(s.to_multiset().count(s[j]) > 0);
    to_multiset_update(s, i, s[j]);
    to_multiset_update(once, j, s[i]);
    if i == j {
        assert(s.update(i, s[j]).update(j, s[i]) =~= s);
    } else {
        assert(once[j] == s[j]);
        assert(s.to_multiset().insert(s[j]).remove(s[i]).insert(s[i]).remove(s[j])
            =~= s.to_multiset());
    }
}

impl MinHeap {
    /// The entries in the queue.
    pub closed spec fn view(&self) -> Multiset<Weighted> {
        self.items@.to_multiset()
    }

    /// The entries are in heap order.
    pub closed spec fn wf(&self) -> bool {
        heap_ordered(self.items@)
    }

    /// An empty queue.
    pub fn new() -> (heap: MinHeap)
        ensures
            heap.wf(),
            heap@ == Multiset::<Weighted>::empty(),
    {
        let heap = MinHeap { items: Vec::new() };
        assert(heap.items@.to_multiset() =~= Multiset::<Weighted>::empty()) by {
            heap.items@.to_multiset_ensures();
        }
        heap
    }

    /// Number of entries.
    pub fn len(&self) -> (n: usize)
        ensures
            n == self@.len(),
    {
        proof {
            self.items@.to_multiset_ensures();
        }
        self.items.len()
    }

    /// Exchanges the entries at `i` and `j`.
    fn exchange(&mut self, i: usize, j: usize)
        requires
            i < old(self).items@.len(),
            j < old(self).items@.len(),
        ensures
            final(self).items@ == old(self).items@.update(i as int, old(self).items@[j as int]).update(
                j as int,
                old(self).items@[i as int],
            ),
            final(self)@ == old(self)@,
    {
        let a = self.items[i];
        let b = self.items[j];
        proof {
            lemma_exchange_keeps_entries(self.items@, i as int, j as int);
        }
        self.items.set(i, b);
        self.items.set(j, a);
    }

    /// Adds an entry.
    #[verifier::rlimit(40)]
    pub fn push(&mut self, item: Weighted)
        requires
            old(self).wf(),
        ensures
            final(self).wf(),
            final(self)@ == old(self)@.insert(item),
    {
        proof {
            to_multiset_build(self.items@, item);
        }
        self.items.push(item);
        let mut i: usize = self.items.len() - 1;
        while i > 0
            invariant
                i < self.items@.len(),
                self@ == old(self)@.insert(item),
                ordered_above(self.items@, i as int),
            ensures
                heap_ordered(self.items@),
                self@ == old(self)@.insert(item),
            decreases i,
        {
            let above: usize = (i - 1) / 2;
            if self.items[above].0 <= self.items[i].0 {
                break ;
            }
            self.exchange(i, above);
            i = above;
        }
    }

    /// Takes a lightest entry out, or gives `None` where the queue is empty.
    #[verifier::rlimit(40)]
    pub fn pop(&mut self) -> (item: Option<Weighted>)
        requires
            old(self).wf(),
        ensures
            final(self).wf(),
            match item {
                None => old(self)@.len() == 0 && final(self)@ == old(self)@,
                Some(lightest) => {
                    &&& old(self)@.contains(lightest)
                    &&& forall|other: Weighted| #[trigger]
                        old(self)@.contains(other) ==> lightest.0 <= other.0
                    &&& final(self)@ == old(self)@.remove(lightest)
                },
            },
    {
        let ghost before = self.items@;
        proof {
            before.to_multiset_ensures();
        }
        if self.items.len() == 0 {
            return None;
        }
        let first = self.items.swap_remove(0);
        proof {
            let moved = before.update(0, before.last());
            assert(self.items@ =~= moved.remove(before.len() - 1));
            to_multiset_update(before, 0, before.last());
            to_multiset_remove(moved, before.len() - 1);
            assert(moved[before.len() - 1] == before.last() || before.len() == 1);
            assert(self.items@.to_multiset() =~= before.to_multiset().remove(first));
            assert forall|other: Weighted| #[trigger]
                before.to_multiset().contains(other) implies first.0 <= other.0 by {
                let k = choose|k: int| 0 <= k < before.len() && before[k] == other;
                lemma_first_is_lightest(before, k);
            }
            assert(before[0] == first);
            assert(before.to_multiset().contains(first));
        }
        let n = self.items.len();
        let mut i: usize = 0;
        while i < n / 2
            invariant
                n == self.items@.len(),
                i <= n,
                self@ == before.to_multiset().remove(first),
                ordered_below(self.items@, i as int),
            ensures
                heap_ordered(self.items@),
                self@ == before.to_multiset().remove(first),
            decreases n - i,
        {
            let left: usize = 2 * i + 1;
            let right: usize = left + 1;
            let below: usize = if right < n && self.items[right].0 < self.items[left].0 {
                right
            } else {
                left
            };
            if self.items[i].0 <= self.items[below].0 {
                break ;
            }
            self.exchange(i, below);
            i = below;
        }
        Some(first)
    }
}

} // verus!
