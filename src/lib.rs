//! A mergeable priority queue of `i32` values, kept as a binomial heap.
//!
//! The heap is a forest of binomial trees with pairwise distinct ranks, held
//! in ascending rank order. Every operation is verified to keep that shape and
//! the heap order, and is specified over the multiset of values it holds.

mod forest;
mod heap;
mod laws;
mod order;
mod text;
mod tree;

pub use heap::{comes_first, is_first, BinomialHeap};
pub use laws::{heap_sort, lemma_comes_first_total, lemma_merge_drain, lemma_pop_order};
pub use order::{bounded_by, precedes, HeapOrder};
