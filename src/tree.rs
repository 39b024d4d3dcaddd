use vstd::arithmetic::power2::{lemma_pow2_unfold, pow2};
use vstd::multiset::Multiset;
use vstd::prelude::*;

use crate::order::{beats, bounded_by, precedes, strictly_before, HeapOrder};

verus! {

broadcast use vstd::multiset::group_multiset_axioms, vstd::multiset::group_multiset_properties;

/// A node of a binomial tree: a value, its rank, and its children in
/// ascending rank order.
pub struct Node {
    pub rank: usize,
    pub value: i32,
    pub children: Vec<Node>,
}

/// The values held by a tree, the root's included.
pub open spec fn tree_values(t: Node) -> Multiset<i32>
    decreases t,
{
    forest_values(t.children@).insert(t.value)
}

/// The values held by all the trees of a forest.
pub open spec fn forest_values(f: Seq<Node>) -> Multiset<i32>
    decreases f,
{
    if f.len() == 0 {
        Multiset::empty()
    } else {
        forest_values(f.drop_last()).add(tree_values(f.last()))
    }
}

/// A binomial tree in heap order: a node of rank `r` has exactly `r`
/// children, the `i`-th of them of rank `i`, and no child's value comes out
/// before its parent's.
pub open spec fn wf_tree(order: HeapOrder, t: Node) -> bool
    decreases t,
{
    &&& t.children@.len() == t.rank
    &&& forall|i: int|
        0 <= i < t.children@.len() ==> {
            &&& (#[trigger] t.children@[i]).rank == i
            &&& precedes(order, t.value, t.children@[i].value)
            &&& wf_tree(order, t.children@[i])
        }
}

pub proof fn lemma_forest_values_singleton(t: Node)
    ensures
        forest_values(seq![t]) == tree_values(t),
{
    assert(seq![t].drop_last() =~= Seq::<Node>::empty());
    assert(forest_values(Seq::<Node>::empty()) == Multiset::<i32>::empty());
    assert(seq![t].last() == t);
    assert(forest_values(seq![t]) =~= tree_values(t));
}

pub proof fn lemma_forest_values_push(f: Seq<Node>, t: Node)
    ensures
        forest_values(f.push(t)) == forest_values(f).add(tree_values(t)),
{
    assert(f.push(t).drop_last() =~= f);
}

pub proof fn lemma_forest_values_concat(a: Seq<Node>, b: Seq<Node>)
    ensures
        forest_values(a + b) == forest_values(a).add(forest_values(b)),
    decreases b.len(),
{
    if b.len() == 0 {
        assert(a + b =~= a);
        assert(forest_values(a).add(forest_values(b)) =~= forest_values(a));
    } else {
        assert((a + b).drop_last() =~= a + b.drop_last());
        lemma_forest_values_concat(a, b.drop_last());
        assert(forest_values(a + b) =~= forest_values(a).add(forest_values(b)));
    }
}

pub proof fn lemma_forest_values_remove(f: Seq<Node>, i: int)
    requires
        0 <= i < f.len(),
    ensures
        forest_values(f) == forest_values(f.remove(i)).add(tree_values(f[i])),
{
    let front = f.take(i);
    let back = f.skip(i + 1);
    assert(f.remove(i) =~= front + back);
    assert(f =~= (front + seq![f[i]]) + back);
    lemma_forest_values_concat(front, back);
    lemma_forest_values_concat(front + seq![f[i]], back);
    lemma_forest_values_concat(front, seq![f[i]]);
    lemma_forest_values_singleton(f[i]);
    assert(forest_values(f) =~= forest_values(f.remove(i)).add(tree_values(f[i])));
}

/// A forest whose trees all lie under `x` holds only values under `x`.
pub proof fn lemma_forest_bounded(order: HeapOrder, x: i32, f: Seq<Node>)
    requires
        forall|i: int| 0 <= i < f.len() ==> bounded_by(order, x, tree_values(#[trigger] f[i])),
    ensures
        bounded_by(order, x, forest_values(f)),
    decreases f.len(),
{
    if f.len() > 0 {
        lemma_forest_bounded(order, x, f.drop_last());
        assert(bounded_by(order, x, tree_values(f[f.len() - 1])));
    }
}

/// The root of a well-formed tree comes out no later than any of its values.
pub proof fn lemma_tree_top(order: HeapOrder, t: Node)
    requires
        wf_tree(order, t),
    ensures
        bounded_by(order, t.value, tree_values(t)),
    decreases t,
{
    let c = t.children@;
    assert forall|i: int| 0 <= i < c.len() implies bounded_by(
        order,
        t.value,
        tree_values(#[trigger] c[i]),
    ) by {
        lemma_tree_top(order, c[i]);
        assert(precedes(order, t.value, c[i].value));
        assert forall|v: i32| tree_values(c[i]).contains(v) implies #[trigger] precedes(
            order,
            t.value,
            v,
        ) by {
            assert(precedes(order, c[i].value, v));
        }
    }
    lemma_forest_bounded(order, t.value, c);
}

proof fn lemma_prefix_size(f: Seq<Node>, k: int)
    requires
        0 <= k <= f.len(),
        forall|i: int|
            0 <= i < k ==> #[trigger] tree_values(f[i]).len() == pow2(i as nat),
    ensures
        forest_values(f.take(k)).len() + 1 == pow2(k as nat),
    decreases k,
{
    if k == 0 {
        assert(f.take(0) =~= Seq::<Node>::empty());
        vstd::arithmetic::power2::lemma2_to64();
    } else {
        lemma_prefix_size(f, k - 1);
        assert(f.take(k).drop_last() =~= f.take(k - 1));
        assert(tree_values(f[k - 1]).len() == pow2((k - 1) as nat));
        lemma_pow2_unfold(k as nat);
    }
}

/// A well-formed tree of rank `r` holds `2^r` values.
pub proof fn lemma_tree_size(order: HeapOrder, t: Node)
    requires
        wf_tree(order, t),
    ensures
        tree_values(t).len() == pow2(t.rank as nat),
    decreases t,
{
    let c = t.children@;
    assert forall|i: int| 0 <= i < t.rank implies #[trigger] tree_values(c[i]).len() == pow2(
        i as nat,
    ) by {
        lemma_tree_size(order, c[i]);
    }
    lemma_prefix_size(c, t.rank as int);
    assert(c.take(t.rank as int) =~= c);
}

proof fn lemma_rank_below_size(r: nat)
    ensures
        r < pow2(r),
    decreases r,
{
    if r == 0 {
        vstd::arithmetic::power2::lemma2_to64();
    } else {
        lemma_rank_below_size((r - 1) as nat);
        lemma_pow2_unfold(r);
    }
}

/// Joins two trees of equal rank into one of the next rank. The root whose
/// value must come out first stays on top; on equal values `x` does.
pub fn link(order: HeapOrder, x: Node, y: Node) -> (r: Node)
    requires
        wf_tree(order, x),
        wf_tree(order, y),
        x.rank == y.rank,
        tree_values(x).len() + tree_values(y).len() <= usize::MAX,
    ensures
        wf_tree(order, r),
        r.rank == x.rank + 1,
        r.value == (if beats(order, y.value, x.value) { y.value } else { x.value }),
        tree_values(r) == tree_values(x).add(tree_values(y)),
{
    proof {
        lemma_tree_size(order, x);
        lemma_rank_below_size(x.rank as nat);
    }
    let (mut top, sub) = if strictly_before(order, y.value, x.value) {
        (y, x)
    } else {
        (x, y)
    };
    let ghost before = top;
    top.children.push(sub);
    top.rank = top.rank + 1;
    proof {
        let c = top.children@;
        assert forall|i: int| 0 <= i < c.len() implies {
            &&& (#[trigger] c[i]).rank == i
            &&& precedes(order, top.value, c[i].value)
            &&& wf_tree(order, c[i])
        } by {
            if i < before.rank {
                assert(c[i] == before.children@[i]);
            }
        }
        lemma_forest_values_push(before.children@, sub);
        assert(tree_values(top) =~= tree_values(x).add(tree_values(y)));
    }
    top
}

} // verus!
