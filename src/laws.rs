use vstd::multiset::Multiset;
use vstd::prelude::*;
use vstd::relations::{sorted_by, total_ordering};
use vstd::seq_lib::{lemma_multiset_commutative, lemma_sorted_unique};

use crate::heap::{comes_first, BinomialHeap};
use crate::order::{precedes, HeapOrder};

verus! {

/// The order in which a heap hands values out is a total order.
pub proof fn lemma_comes_first_total(order: HeapOrder)
    ensures
        total_ordering(comes_first(order)),
{
    let r = comes_first(order);
    assert forall|a: i32, b: i32| #[trigger] r(a, b) == precedes(order, a, b) by {}
}

/// Values taken out of a heap one after another, until it is empty, are the
/// values put in, sorted by the heap's order, whatever order they were put
/// in: `drain_sorted` (and so a run of `pop`) hands out a sorted sequence of
/// the same values, and exactly one such sequence exists.
pub proof fn lemma_pop_order(order: HeapOrder, pushed: Seq<i32>, popped: Seq<i32>)
    requires
        sorted_by(popped, comes_first(order)),
        popped.to_multiset() == pushed.to_multiset(),
    ensures
        popped == pushed.sort_by(comes_first(order)),
{
    lemma_comes_first_total(order);
    pushed.lemma_sort_by_ensures(comes_first(order));
    lemma_sorted_unique(popped, pushed.sort_by(comes_first(order)), comes_first(order));
}

/// Draining the merge of heaps `A` and `B` (holding `ma` and `mb`) hands out
/// the same values as draining `A` and `B` apart and merging the two sorted
/// outputs: the one sorted sequence of all their values.
pub proof fn lemma_merge_drain(
    order: HeapOrder,
    ma: Multiset<i32>,
    mb: Multiset<i32>,
    drained_a: Seq<i32>,
    drained_b: Seq<i32>,
    drained_merge: Seq<i32>,
)
    requires
        sorted_by(drained_a, comes_first(order)),
        drained_a.to_multiset() == ma,
        sorted_by(drained_b, comes_first(order)),
        drained_b.to_multiset() == mb,
        sorted_by(drained_merge, comes_first(order)),
        drained_merge.to_multiset() == ma.add(mb),
    ensures
        drained_merge.to_multiset() == (drained_a + drained_b).to_multiset(),
        drained_merge == (drained_a + drained_b).sort_by(comes_first(order)),
{
    lemma_multiset_commutative(drained_a, drained_b);
    lemma_pop_order(order, drained_a + drained_b, drained_merge);
}

/// Pushes every value of `values` into an empty heap of the given order and
/// takes them all out again: the values sorted by that order.
pub fn heap_sort(order: HeapOrder, values: &Vec<i32>) -> (r: Vec<i32>)
    ensures
        r@ == values@.sort_by(comes_first(order)),
{
    broadcast use vstd::seq_lib::group_to_multiset_ensures;

    let mut heap = BinomialHeap::with_order(order);
    let mut i: usize = 0;
    while i < values.len()
        invariant
            heap.wf(),
            heap.heap_order() == order,
            i <= values@.len(),
            heap@ == values@.take(i as int).to_multiset(),
        decreases values@.len() - i,
    {
        proof {
            assert(values@.take(i + 1) == values@.take(i as int).push(values@[i as int]));
            vstd::seq_lib::to_multiset_build(values@.take(i as int), values@[i as int]);
            values@.take(i as int).to_multiset_ensures();
            assert(heap@.len() == i);
        }
        heap.push(values[i]);
        i = i + 1;
    }
    proof {
        assert(values@.take(i as int) == values@);
    }
    let r = heap.drain_sorted();
    proof {
        lemma_pop_order(order, values@, r@);
    }
    r
}

} // verus!
