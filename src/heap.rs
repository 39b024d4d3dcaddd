use vstd::arithmetic::power2::{lemma_pow2_strictly_increases, lemma_pow2_unfold, pow2};
use vstd::multiset::Multiset;
use vstd::prelude::*;
use vstd::relations::sorted_by;

use crate::forest::{merge_forests, wf_forest};
use crate::order::{bounded_by, precedes, strictly_before, HeapOrder};
use crate::text::{forest_text, format_node_list};
use crate::tree::{
    forest_values, lemma_forest_bounded, lemma_forest_values_concat, lemma_forest_values_remove,
    lemma_forest_values_singleton, lemma_tree_size, lemma_tree_top, tree_values, wf_tree, Node,
};

verus! {

broadcast use vstd::multiset::group_multiset_axioms, vstd::multiset::group_multiset_properties;

/// `v` is a value of `m` that a heap of this order may hand out first.
pub open spec fn is_first(order: HeapOrder, v: i32, m: Multiset<i32>) -> bool {
    m.contains(v) && bounded_by(order, v, m)
}

/// The order in which a heap of this order hands values out, as a relation
/// for sorting.
pub open spec fn comes_first(order: HeapOrder) -> spec_fn(i32, i32) -> bool {
    |a: i32, b: i32| precedes(order, a, b)
}

/// A priority queue of `i32` values, kept as a forest of binomial trees.
///
/// Its view is the multiset of values it holds. Which end comes out first is
/// fixed when the heap is made.
pub struct BinomialHeap {
    roots: Vec<Node>,
    order: HeapOrder,
}

impl View for BinomialHeap {
    type V = Multiset<i32>;

    closed spec fn view(&self) -> Multiset<i32> {
        forest_values(self.roots@)
    }
}

/// The root at `idx` comes out no later than any root of the forest, so its
/// value comes out first from the whole forest.
proof fn lemma_first_root(order: HeapOrder, f: Seq<Node>, idx: int)
    requires
        wf_forest(order, f),
        0 <= idx < f.len(),
        forall|k: int| 0 <= k < f.len() ==> precedes(order, f[idx].value, #[trigger] f[k].value),
    ensures
        is_first(order, f[idx].value, forest_values(f)),
{
    let x = f[idx].value;
    assert forall|k: int| 0 <= k < f.len() implies bounded_by(
        order,
        x,
        tree_values(#[trigger] f[k]),
    ) by {
        lemma_tree_top(order, f[k]);
        assert forall|v: i32| tree_values(f[k]).contains(v) implies #[trigger] precedes(
            order,
            x,
            v,
        ) by {
            assert(precedes(order, f[k].value, v));
        }
    }
    lemma_forest_bounded(order, x, f);
    lemma_forest_values_remove(f, idx);
}

/// A forest holds no value exactly when it has no tree.
proof fn lemma_forest_empty(f: Seq<Node>)
    ensures
        (forest_values(f).len() == 0) == (f.len() == 0),
{
    if f.len() > 0 {
        lemma_forest_values_remove(f, 0);
        assert(tree_values(f[0]).contains(f[0].value));
    } else {
        assert(forest_values(f) =~= Multiset::empty());
    }
}

/// A prefix of a forest holds no more values than the forest.
proof fn lemma_prefix_values(f: Seq<Node>, k: int)
    requires
        0 <= k <= f.len(),
    ensures
        forest_values(f.take(k)).len() <= forest_values(f).len(),
{
    assert(f =~= f.take(k) + f.skip(k));
    lemma_forest_values_concat(f.take(k), f.skip(k));
}

/// `2^e`, computed by doubling.
fn tree_size(e: usize) -> (r: usize)
    requires
        pow2(e as nat) <= usize::MAX,
    ensures
        r == pow2(e as nat),
{
    proof {
        vstd::arithmetic::power2::lemma2_to64();
    }
    let mut r: usize = 1;
    let mut j: usize = 0;
    while j < e
        invariant
            j <= e,
            r == pow2(j as nat),
            pow2(e as nat) <= usize::MAX,
        decreases e - j,
    {
        proof {
            lemma_pow2_unfold((j + 1) as nat);
            if j + 1 < e {
                lemma_pow2_strictly_increases((j + 1) as nat, e as nat);
            }
        }
        r = r * 2;
        j = j + 1;
    }
    r
}

impl BinomialHeap {
    /// The order fixed when the heap was made.
    pub closed spec fn heap_order(&self) -> HeapOrder {
        self.order
    }

    /// The roots form a binomial forest: each is a binomial tree in heap
    /// order (a node of rank `r` has exactly `r` children, of ranks
    /// `0, 1, ..., r - 1` in that order), and no two roots share a rank. The
    /// count of values fits in `usize`.
    pub closed spec fn wf(&self) -> bool {
        &&& wf_forest(self.order, self.roots@)
        &&& self@.len() <= usize::MAX
    }

    /// The heap's forest in the nested bracket notation: the list of its
    /// trees from the lowest rank up, each as `[value]` or as
    /// `[value [children]]`, separated by `, `.
    pub closed spec fn text(&self) -> Seq<char> {
        forest_text(self.roots@)
    }

    /// Makes an empty heap of the given order.
    pub fn with_order(order: HeapOrder) -> (r: Self)
        ensures
            r.wf(),
            r.heap_order() == order,
            r@ == Multiset::<i32>::empty(),
    {
        let r = BinomialHeap { roots: Vec::new(), order };
        proof {
            assert(r@ =~= Multiset::<i32>::empty());
        }
        r
    }

    /// Makes an empty heap that hands out its largest value first.
    pub fn new() -> (r: Self)
        ensures
            r.wf(),
            r.heap_order() == HeapOrder::Max,
            r@ == Multiset::<i32>::empty(),
    {
        Self::with_order(HeapOrder::Max)
    }

    /// The index of the first root whose value comes out no later than any
    /// other root's.
    fn best_root(&self) -> (r: usize)
        requires
            self.wf(),
            self.roots@.len() > 0,
        ensures
            r < self.roots@.len(),
            forall|k: int|
                0 <= k < self.roots@.len() ==> precedes(
                    self.order,
                    self.roots@[r as int].value,
                    #[trigger] self.roots@[k].value,
                ),
    {
        let mut best: usize = 0;
        let mut i: usize = 1;
        while i < self.roots.len()
            invariant
                0 <= best < i <= self.roots@.len(),
                forall|k: int|
                    0 <= k < i ==> precedes(
                        self.order,
                        self.roots@[best as int].value,
                        #[trigger] self.roots@[k].value,
                    ),
            decreases self.roots@.len() - i,
        {
            if strictly_before(self.order, self.roots[i].value, self.roots[best].value) {
                best = i;
            }
            i = i + 1;
        }
        best
    }

    /// Adds a value.
    pub fn push(&mut self, value: i32)
        requires
            old(self).wf(),
            old(self)@.len() < usize::MAX,
        ensures
            final(self).wf(),
            final(self).heap_order() == old(self).heap_order(),
            final(self)@ == old(self)@.insert(value),
            final(self)@.len() == old(self)@.len() + 1,
    {
        let node = Node { rank: 0, value, children: Vec::new() };
        let mut single: Vec<Node> = Vec::new();
        single.push(node);
        let mut rest: Vec<Node> = Vec::new();
        std::mem::swap(&mut self.roots, &mut rest);
        proof {
            assert(forest_values(node.children@) =~= Multiset::empty());
            assert(wf_tree(self.order, node));
            lemma_forest_values_singleton(node);
            assert(single@ =~= seq![node]);
        }
        self.roots = merge_forests(self.order, rest, single);
    }

    /// Takes out the value that comes first (the largest for a `Max` heap,
    /// the smallest for a `Min` heap); `None` when the heap is empty.
    pub fn pop(&mut self) -> (r: Option<i32>)
        requires
            old(self).wf(),
        ensures
            final(self).wf(),
            final(self).heap_order() == old(self).heap_order(),
            r is None <==> old(self)@.len() == 0,
            r is None ==> final(self)@ == old(self)@,
            r is Some ==> is_first(old(self).heap_order(), r->0, old(self)@),
            r is Some ==> final(self)@ == old(self)@.remove(r->0),
            r is Some ==> final(self)@.len() == old(self)@.len() - 1,
    {
        proof {
            lemma_forest_empty(self.roots@);
        }
        if self.roots.len() == 0 {
            return None;
        }
        let idx = self.best_root();
        let ghost f = self.roots@;
        proof {
            lemma_first_root(self.order, f, idx as int);
            lemma_forest_values_remove(f, idx as int);
        }
        let node = self.roots.remove(idx);
        let value = node.value;
        let children = node.children;
        let mut rest: Vec<Node> = Vec::new();
        std::mem::swap(&mut self.roots, &mut rest);
        proof {
            assert(rest@ == f.remove(idx as int));
            assert(wf_tree(self.order, node));
            assert forall|i: int, j: int| 0 <= i < j < rest@.len() implies (#[trigger] rest@[i]).rank
                < (#[trigger] rest@[j]).rank by {
                let oi = if i < idx { i } else { i + 1 };
                let oj = if j < idx { j } else { j + 1 };
                assert(rest@[i] == f[oi]);
                assert(rest@[j] == f[oj]);
            }
            assert forall|i: int| 0 <= i < rest@.len() implies wf_tree(
                self.order,
                #[trigger] rest@[i],
            ) by {
                if i >= idx {
                    assert(rest@[i] == f[i + 1]);
                }
            }
            assert forall|i: int, j: int|
                0 <= i < j < children@.len() implies (#[trigger] children@[i]).rank
                < (#[trigger] children@[j]).rank by {
                assert(children@[i] == node.children@[i]);
                assert(children@[j] == node.children@[j]);
            }
            assert(forest_values(rest@).add(forest_values(children@)) =~= forest_values(f).remove(
                value,
            ));
        }
        self.roots = merge_forests(self.order, rest, children);
        Some(value)
    }

    /// The value that `pop` would take out, without taking it; `None` when
    /// the heap is empty.
    pub fn peek(&self) -> (r: Option<i32>)
        requires
            self.wf(),
        ensures
            r is None <==> self@.len() == 0,
            r is Some ==> is_first(self.heap_order(), r->0, self@),
    {
        proof {
            lemma_forest_empty(self.roots@);
        }
        if self.roots.len() == 0 {
            return None;
        }
        let idx = self.best_root();
        proof {
            lemma_first_root(self.order, self.roots@, idx as int);
        }
        Some(self.roots[idx].value)
    }

    /// Whether the heap holds no value.
    pub fn is_empty(&self) -> (r: bool)
        requires
            self.wf(),
        ensures
            r == (self@.len() == 0),
    {
        proof {
            lemma_forest_empty(self.roots@);
        }
        self.roots.len() == 0
    }

    /// The number of values held: `2^r` for each root of rank `r`.
    pub fn len(&self) -> (r: usize)
        requires
            self.wf(),
        ensures
            r == self@.len(),
    {
        let ghost f = self.roots@;
        let mut sum: usize = 0;
        let mut i: usize = 0;
        proof {
            assert(f.take(0) =~= Seq::<Node>::empty());
            assert(forest_values(f.take(0)) =~= Multiset::empty());
        }
        while i < self.roots.len()
            invariant
                self.wf(),
                f == self.roots@,
                i <= f.len(),
                sum == forest_values(f.take(i as int)).len(),
            decreases f.len() - i,
        {
            proof {
                assert(f.take(i + 1).drop_last() =~= f.take(i as int));
                assert(f.take(i + 1).last() == f[i as int]);
                lemma_prefix_values(f, i + 1);
                lemma_tree_size(self.order, f[i as int]);
            }
            let size = tree_size(self.roots[i].rank);
            sum = sum + size;
            i = i + 1;
        }
        proof {
            assert(f.take(i as int) =~= f);
        }
        sum
    }

    /// Moves every value of `other` into this heap. Where both heaps have the
    /// same order their forests are merged; else `other`'s values are taken
    /// out one by one and added.
    pub fn merge(&mut self, other: BinomialHeap)
        requires
            old(self).wf(),
            other.wf(),
            old(self)@.len() + other@.len() <= usize::MAX,
        ensures
            final(self).wf(),
            final(self).heap_order() == old(self).heap_order(),
            final(self)@ == old(self)@.add(other@),
            final(self)@.len() == old(self)@.len() + other@.len(),
    {
        let ghost total = self@.add(other@);
        if self.order == other.order {
            let mut rest: Vec<Node> = Vec::new();
            std::mem::swap(&mut self.roots, &mut rest);
            self.roots = merge_forests(self.order, rest, other.roots);
        } else {
            let mut other = other;
            proof {
                lemma_forest_empty(other.roots@);
            }
            while other.roots.len() > 0
                invariant
                    self.wf(),
                    other.wf(),
                    self.order == old(self).order,
                    self@.add(other@) == total,
                    total.len() <= usize::MAX,
                    (other@.len() == 0) == (other.roots@.len() == 0),
                decreases other@.len(),
            {
                let v = other.pop().unwrap();
                self.push(v);
                proof {
                    lemma_forest_empty(other.roots@);
                    assert(self@.add(other@) =~= total);
                }
            }
            proof {
                assert(self@ =~= total);
            }
        }
    }

    /// Takes out every value, in the order in which `pop` hands them out.
    pub fn drain_sorted(&mut self) -> (r: Vec<i32>)
        requires
            old(self).wf(),
        ensures
            final(self).wf(),
            final(self).heap_order() == old(self).heap_order(),
            final(self)@.len() == 0,
            r@.to_multiset() == old(self)@,
            sorted_by(r@, comes_first(old(self).heap_order())),
    {
        broadcast use vstd::seq_lib::group_to_multiset_ensures;

        let ghost m0 = self@;
        let ghost order = self.order;
        let mut out: Vec<i32> = Vec::new();
        proof {
            assert(out@.to_multiset().add(self@) =~= m0);
        }
        while !self.is_empty()
            invariant
                self.wf(),
                self.order == order,
                out@.to_multiset().add(self@) == m0,
                sorted_by(out@, comes_first(order)),
                forall|i: int, v: i32|
                    0 <= i < out@.len() && self@.contains(v) ==> #[trigger] precedes(
                        order,
                        out@[i],
                        v,
                    ),
            decreases self@.len(),
        {
            let ghost (before, out0) = (self@, out@);
            let v = self.pop().unwrap();
            out.push(v);
            proof {
                assert(out@ == out0.push(v));
                vstd::seq_lib::to_multiset_build(out0, v);
                assert(out@.to_multiset().add(self@) =~= m0);
                assert forall|i: int, j: int| 0 <= i < j < out@.len() implies #[trigger] comes_first(
                    order,
                )(out@[i], out@[j]) by {
                    if j < out@.len() - 1 {
                        assert(out@[i] == out0[i]);
                        assert(out@[j] == out0[j]);
                        assert(comes_first(order)(out0[i], out0[j]));
                    } else {
                        assert(out@[i] == out0[i]);
                        assert(precedes(order, out0[i], v));
                    }
                }
                assert forall|i: int, w: i32|
                    0 <= i < out@.len() && self@.contains(w) implies #[trigger] precedes(
                    order,
                    out@[i],
                    w,
                ) by {
                    assert(before.contains(w));
                    assert(precedes(order, v, w));
                    if i < out@.len() - 1 {
                        assert(out@[i] == out0[i]);
                    }
                }
            }
        }
        proof {
            assert(out@.to_multiset() =~= m0);
        }
        out
    }

    /// The heap in the nested bracket notation of [`Self::text`].
    pub fn render(&self) -> (r: String)
        ensures
            r@ == self.text(),
    {
        let mut out = String::new();
        format_node_list(&self.roots, &mut out);
        out
    }

    /// The order fixed when the heap was made.
    pub fn order(&self) -> (r: HeapOrder)
        ensures
            r == self.heap_order(),
    {
        self.order
    }
}

} // verus!
