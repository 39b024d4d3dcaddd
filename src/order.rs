use vstd::multiset::Multiset;
use vstd::prelude::*;

verus! {

/// Which end of the value range a heap hands out first.
#[derive(Clone, Copy, Debug, PartialEq, Eq, Structural)]
pub enum HeapOrder {
    /// The smallest value comes out first.
    Min,
    /// The largest value comes out first.
    Max,
}

/// `a` may come out of a heap of this order no later than `b`.
pub open spec fn precedes(order: HeapOrder, a: i32, b: i32) -> bool {
    match order {
        HeapOrder::Min => a <= b,
        HeapOrder::Max => a >= b,
    }
}

/// `a` must come out of a heap of this order strictly before `b`.
pub open spec fn beats(order: HeapOrder, a: i32, b: i32) -> bool {
    precedes(order, a, b) && a != b
}

/// Every value of `m` may come out no earlier than `x`.
pub open spec fn bounded_by(order: HeapOrder, x: i32, m: Multiset<i32>) -> bool {
    forall|v: i32| m.contains(v) ==> #[trigger] precedes(order, x, v)
}

/// Executable form of [`beats`].
pub fn strictly_before(order: HeapOrder, a: i32, b: i32) -> (r: bool)
    ensures
        r == beats(order, a, b),
{
    match order {
        HeapOrder::Min => a < b,
        HeapOrder::Max => a > b,
    }
}

} // verus!
