use vstd::multiset::Multiset;
use vstd::prelude::*;

use crate::order::HeapOrder;
use crate::tree::{forest_values, lemma_forest_values_push, link, tree_values, wf_tree, Node};

verus! {

broadcast use vstd::multiset::group_multiset_axioms, vstd::multiset::group_multiset_properties;

/// Every tree of the sequence is a binomial tree in heap order.
pub open spec fn all_wf(order: HeapOrder, f: Seq<Node>) -> bool {
    forall|i: int| 0 <= i < f.len() ==> wf_tree(order, #[trigger] f[i])
}

/// Ranks strictly increase along the sequence.
pub open spec fn ranks_ascending(f: Seq<Node>) -> bool {
    forall|i: int, j: int| 0 <= i < j < f.len() ==> (#[trigger] f[i]).rank < (#[trigger] f[j]).rank
}

/// Ranks strictly decrease along the sequence.
pub open spec fn ranks_descending(f: Seq<Node>) -> bool {
    forall|i: int, j: int| 0 <= i < j < f.len() ==> (#[trigger] f[i]).rank > (#[trigger] f[j]).rank
}

/// A binomial forest: well-formed trees, pairwise distinct ranks, in
/// ascending rank order.
pub open spec fn wf_forest(order: HeapOrder, f: Seq<Node>) -> bool {
    all_wf(order, f) && ranks_ascending(f)
}

/// The values of a pending carry tree, if any.
pub open spec fn carry_values(c: Option<Node>) -> Multiset<i32> {
    match c {
        Some(t) => tree_values(t),
        None => Multiset::empty(),
    }
}

/// Turns a forest into a stack whose top is its lowest-rank tree.
fn into_stack(order: HeapOrder, f: Vec<Node>) -> (s: Vec<Node>)
    requires
        wf_forest(order, f@),
    ensures
        all_wf(order, s@),
        ranks_descending(s@),
        forest_values(s@) == forest_values(f@),
{
    let ghost f0 = f@;
    let mut f = f;
    let mut s: Vec<Node> = Vec::new();
    while f.len() > 0
        invariant
            wf_forest(order, f@),
            all_wf(order, s@),
            ranks_descending(s@),
            forall|i: int, j: int|
                0 <= i < f@.len() && 0 <= j < s@.len() ==> (#[trigger] f@[i]).rank
                    < (#[trigger] s@[j]).rank,
            forest_values(f@).add(forest_values(s@)) == forest_values(f0),
        decreases f.len(),
    {
        let ghost before = f@;
        let t = f.pop().unwrap();
        proof {
            lemma_forest_values_push(s@, t);
            assert(before.drop_last() == f@);
            assert(forest_values(before) == forest_values(f@).add(tree_values(t)));
        }
        s.push(t);
        proof {
            assert(forest_values(f@).add(forest_values(s@)) =~= forest_values(f0));
        }
    }
    proof {
        assert(forest_values(f@) =~= Multiset::empty());
        assert(forest_values(s@) =~= forest_values(f0));
    }
    s
}

/// Every rank in `lo` is below every rank in `hi`.
pub open spec fn ranks_below(lo: Seq<Node>, hi: Seq<Node>) -> bool {
    forall|i: int, j: int|
        0 <= i < lo.len() && 0 <= j < hi.len() ==> (#[trigger] lo[i]).rank < (#[trigger] hi[j]).rank
}

/// The state of a forest merge: two stacks still to merge, the finished
/// low-rank part of the result, and a pending carry whose rank lies between
/// the two.
#[verifier::opaque]
pub open spec fn merge_inv(
    order: HeapOrder,
    sa: Seq<Node>,
    sb: Seq<Node>,
    r: Seq<Node>,
    carry: Option<Node>,
    total: Multiset<i32>,
) -> bool {
    &&& all_wf(order, sa)
    &&& all_wf(order, sb)
    &&& wf_forest(order, r)
    &&& ranks_descending(sa)
    &&& ranks_descending(sb)
    &&& ranks_below(r, sa)
    &&& ranks_below(r, sb)
    &&& carry is Some ==> {
        &&& wf_tree(order, carry->0)
        &&& forall|i: int| 0 <= i < r.len() ==> (#[trigger] r[i]).rank < carry->0.rank
        &&& forall|j: int| 0 <= j < sa.len() ==> carry->0.rank <= (#[trigger] sa[j]).rank
        &&& forall|j: int| 0 <= j < sb.len() ==> carry->0.rank <= (#[trigger] sb[j]).rank
    }
    &&& forest_values(r).add(forest_values(sa)).add(forest_values(sb)).add(carry_values(carry))
        == total
    &&& total.len() <= usize::MAX
}

proof fn lemma_merge_inv_swap(
    order: HeapOrder,
    sa: Seq<Node>,
    sb: Seq<Node>,
    r: Seq<Node>,
    carry: Option<Node>,
    total: Multiset<i32>,
)
    requires
        merge_inv(order, sa, sb, r, carry, total),
    ensures
        merge_inv(order, sb, sa, r, carry, total),
{
    reveal(merge_inv);
    assert(forest_values(r).add(forest_values(sb)).add(forest_values(sa)).add(carry_values(carry))
        =~= total);
}

/// Moves the top of `from`, the lowest rank left, to the result.
fn move_top(
    order: HeapOrder,
    from: &mut Vec<Node>,
    other: &Vec<Node>,
    result: &mut Vec<Node>,
    Ghost(total): Ghost<Multiset<i32>>,
)
    requires
        merge_inv(order, old(from)@, other@, old(result)@, None, total),
        old(from)@.len() > 0,
        other@.len() == 0 || old(from)@.last().rank < other@.last().rank,
    ensures
        merge_inv(order, final(from)@, other@, final(result)@, None, total),
        final(from)@.len() == old(from)@.len() - 1,
{
    reveal(merge_inv);
    let ghost (ra, rr) = (from@, result@);
    let t = from.pop().unwrap();
    proof {
        lemma_forest_values_push(rr, t);
        assert(ra.drop_last() == from@);
    }
    result.push(t);
    proof {
        assert(forest_values(result@).add(forest_values(from@)).add(forest_values(other@)).add(
            carry_values(None),
        ) =~= total);
        assert(result@[result@.len() - 1] == ra[ra.len() - 1]);
    }
}

/// Links the tops of both stacks, which share a rank, into a carry.
fn link_tops(
    order: HeapOrder,
    sa: &mut Vec<Node>,
    sb: &mut Vec<Node>,
    result: &Vec<Node>,
    Ghost(total): Ghost<Multiset<i32>>,
) -> (c: Node)
    requires
        merge_inv(order, old(sa)@, old(sb)@, result@, None, total),
        old(sa)@.len() > 0,
        old(sb)@.len() > 0,
        old(sa)@.last().rank == old(sb)@.last().rank,
    ensures
        merge_inv(order, final(sa)@, final(sb)@, result@, Some(c), total),
        final(sa)@.len() == old(sa)@.len() - 1,
        final(sb)@.len() == old(sb)@.len() - 1,
{
    reveal(merge_inv);
    let ghost (ra, rb) = (sa@, sb@);
    let x = sa.pop().unwrap();
    let y = sb.pop().unwrap();
    proof {
        assert(ra.drop_last() == sa@);
        assert(rb.drop_last() == sb@);
        assert(forest_values(result@).add(forest_values(sa@)).add(forest_values(sb@)).add(
            tree_values(x).add(tree_values(y)),
        ) =~= total);
    }
    let c = link(order, x, y);
    proof {
        assert(forest_values(result@).add(forest_values(sa@)).add(forest_values(sb@)).add(
            carry_values(Some(c)),
        ) =~= total);
    }
    c
}

/// Links the carry with the top of `from`, which shares its rank.
fn absorb(
    order: HeapOrder,
    c: Node,
    from: &mut Vec<Node>,
    other: &Vec<Node>,
    result: &Vec<Node>,
    Ghost(total): Ghost<Multiset<i32>>,
) -> (n: Node)
    requires
        merge_inv(order, old(from)@, other@, result@, Some(c), total),
        old(from)@.len() > 0,
        old(from)@.last().rank == c.rank,
        other@.len() == 0 || other@.last().rank != c.rank,
    ensures
        merge_inv(order, final(from)@, other@, result@, Some(n), total),
        final(from)@.len() == old(from)@.len() - 1,
{
    reveal(merge_inv);
    let ghost ra = from@;
    let x = from.pop().unwrap();
    proof {
        assert(ra.drop_last() == from@);
        assert(forest_values(result@).add(forest_values(from@)).add(forest_values(other@)).add(
            tree_values(c).add(tree_values(x)),
        ) =~= total);
        if other@.len() > 0 {
            assert(other@[other@.len() - 1].rank > c.rank);
        }
    }
    let n = link(order, c, x);
    proof {
        assert(forest_values(result@).add(forest_values(from@)).add(forest_values(other@)).add(
            carry_values(Some(n)),
        ) =~= total);
    }
    n
}

/// Moves the carry to the result, where no stack holds a tree of its rank.
fn emit_carry(
    order: HeapOrder,
    c: Node,
    sa: &Vec<Node>,
    sb: &Vec<Node>,
    result: &mut Vec<Node>,
    Ghost(total): Ghost<Multiset<i32>>,
)
    requires
        merge_inv(order, sa@, sb@, old(result)@, Some(c), total),
        sa@.len() == 0 || sa@.last().rank != c.rank,
        sb@.len() == 0 || sb@.last().rank != c.rank,
    ensures
        merge_inv(order, sa@, sb@, final(result)@, None, total),
{
    reveal(merge_inv);
    let ghost rr = result@;
    proof {
        lemma_forest_values_push(rr, c);
    }
    result.push(c);
    proof {
        assert(forest_values(result@).add(forest_values(sa@)).add(forest_values(sb@)).add(
            carry_values(None),
        ) =~= total);
        assert forall|i: int, j: int|
            0 <= i < result@.len() && 0 <= j < sa@.len() implies (#[trigger] result@[i]).rank
            < (#[trigger] sa@[j]).rank by {
            assert(sa@[sa@.len() - 1].rank <= sa@[j].rank);
        }
        assert forall|i: int, j: int|
            0 <= i < result@.len() && 0 <= j < sb@.len() implies (#[trigger] result@[i]).rank
            < (#[trigger] sb@[j]).rank by {
            assert(sb@[sb@.len() - 1].rank <= sb@[j].rank);
        }
    }
}

/// Where both stacks hold a tree of the carry's rank: the carry goes to the
/// result and the two tops are linked into the next carry.
fn carry_past_pair(
    order: HeapOrder,
    c: Node,
    sa: &mut Vec<Node>,
    sb: &mut Vec<Node>,
    result: &mut Vec<Node>,
    Ghost(total): Ghost<Multiset<i32>>,
) -> (n: Node)
    requires
        merge_inv(order, old(sa)@, old(sb)@, old(result)@, Some(c), total),
        old(sa)@.len() > 0,
        old(sb)@.len() > 0,
        old(sa)@.last().rank == c.rank,
        old(sb)@.last().rank == c.rank,
    ensures
        merge_inv(order, final(sa)@, final(sb)@, final(result)@, Some(n), total),
        final(sa)@.len() == old(sa)@.len() - 1,
        final(sb)@.len() == old(sb)@.len() - 1,
{
    reveal(merge_inv);
    let ghost (ra, rb, rr) = (sa@, sb@, result@);
    proof {
        lemma_forest_values_push(rr, c);
    }
    result.push(c);
    let x = sa.pop().unwrap();
    let y = sb.pop().unwrap();
    proof {
        assert(ra.drop_last() == sa@);
        assert(rb.drop_last() == sb@);
        assert(forest_values(result@).add(forest_values(sa@)).add(forest_values(sb@)).add(
            tree_values(x).add(tree_values(y)),
        ) =~= total);
    }
    let n = link(order, x, y);
    proof {
        assert(forest_values(result@).add(forest_values(sa@)).add(forest_values(sb@)).add(
            carry_values(Some(n)),
        ) =~= total);
        assert forall|i: int, j: int|
            0 <= i < result@.len() && 0 <= j < sa@.len() implies (#[trigger] result@[i]).rank
            < (#[trigger] sa@[j]).rank by {
            assert(ra[j].rank > ra[ra.len() - 1].rank);
        }
        assert forall|i: int, j: int|
            0 <= i < result@.len() && 0 <= j < sb@.len() implies (#[trigger] result@[i]).rank
            < (#[trigger] sb@[j]).rank by {
            assert(rb[j].rank > rb[rb.len() - 1].rank);
        }
    }
    n
}

/// Merges two binomial forests into one holding all of their trees, the way
/// binary addition adds two numbers: from the lowest rank up, two trees of
/// equal rank are linked into a carry of the next rank, which may meet a
/// further tree of its own rank on the way up. Where a link meets equal
/// values, the carry, and else the tree from `a`, stays on top.
pub fn merge_forests(order: HeapOrder, a: Vec<Node>, b: Vec<Node>) -> (r: Vec<Node>)
    requires
        wf_forest(order, a@),
        wf_forest(order, b@),
        forest_values(a@).add(forest_values(b@)).len() <= usize::MAX,
    ensures
        wf_forest(order, r@),
        forest_values(r@) == forest_values(a@).add(forest_values(b@)),
{
    let ghost total = forest_values(a@).add(forest_values(b@));
    let mut sa = into_stack(order, a);
    let mut sb = into_stack(order, b);
    let mut result: Vec<Node> = Vec::new();
    let mut carry: Option<Node> = None;
    proof {
        reveal(merge_inv);
        assert(forest_values(result@).add(forest_values(sa@)).add(forest_values(sb@)).add(
            carry_values(carry),
        ) =~= total);
    }
    while sa.len() > 0 || sb.len() > 0 || carry.is_some()
        invariant
            merge_inv(order, sa@, sb@, result@, carry, total),
        decreases sa@.len() + sb@.len() + (if carry is Some { 1int } else { 0int }),
    {
        let na = sa.len();
        let nb = sb.len();
        match carry.take() {
            None => {
                if nb == 0 || (na > 0 && sa[na - 1].rank < sb[nb - 1].rank) {
                    move_top(order, &mut sa, &sb, &mut result, Ghost(total));
                } else if na == 0 || sb[nb - 1].rank < sa[na - 1].rank {
                    proof {
                        lemma_merge_inv_swap(order, sa@, sb@, result@, None, total);
                    }
                    move_top(order, &mut sb, &sa, &mut result, Ghost(total));
                    proof {
                        lemma_merge_inv_swap(order, sb@, sa@, result@, None, total);
                    }
                } else {
                    carry = Some(link_tops(order, &mut sa, &mut sb, &result, Ghost(total)));
                }
            },
            Some(c) => {
                let a_eq = na > 0 && sa[na - 1].rank == c.rank;
                let b_eq = nb > 0 && sb[nb - 1].rank == c.rank;
                if a_eq && b_eq {
                    carry = Some(
                        carry_past_pair(order, c, &mut sa, &mut sb, &mut result, Ghost(total)),
                    );
                } else if a_eq {
                    carry = Some(absorb(order, c, &mut sa, &sb, &result, Ghost(total)));
                } else if b_eq {
                    proof {
                        lemma_merge_inv_swap(order, sa@, sb@, result@, Some(c), total);
                    }
                    let n = absorb(order, c, &mut sb, &sa, &result, Ghost(total));
                    proof {
                        lemma_merge_inv_swap(order, sb@, sa@, result@, Some(n), total);
                    }
                    carry = Some(n);
                } else {
                    emit_carry(order, c, &sa, &sb, &mut result, Ghost(total));
                }
            },
        }
    }
    proof {
        reveal(merge_inv);
        assert(forest_values(sa@) =~= Multiset::empty());
        assert(forest_values(sb@) =~= Multiset::empty());
        assert(forest_values(result@) =~= total);
    }
    result
}

} // verus!
