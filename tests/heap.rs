use binomial::{heap_sort, BinomialHeap, HeapOrder};
use rand::rngs::StdRng;
use rand::{Rng, SeedableRng};
use std::collections::BinaryHeap;
use std::cmp::Reverse;

fn drain(heap: &mut BinomialHeap) -> Vec<i32> {
    let mut out = Vec::new();
    while let Some(v) = heap.pop() {
        out.push(v);
    }
    out
}

#[test]
fn instantiate_empty_heap() {
    BinomialHeap::new();
}

#[test]
fn singleton_heap() {
    let mut t = BinomialHeap::new();
    assert_eq!(t.len(), 0);
    assert!(t.is_empty());
    t.push(23i32);
    assert_eq!(t.len(), 1);
    assert!(!t.is_empty());
    assert_eq!(t.peek(), Some(23i32));
    assert_eq!(t.pop(), Some(23i32));
}

#[test]
fn fresh_heap_is_empty() {
    for order in [HeapOrder::Min, HeapOrder::Max] {
        let mut h = BinomialHeap::with_order(order);
        assert_eq!(h.len(), 0);
        assert!(h.is_empty());
        assert_eq!(h.peek(), None);
        assert_eq!(h.pop(), None);
        assert_eq!(h.len(), 0);
        assert_eq!(h.order(), order);
    }
    assert_eq!(BinomialHeap::new().order(), HeapOrder::Max);
}

#[test]
fn min_heap_pops_in_ascending_order() {
    let mut h = BinomialHeap::with_order(HeapOrder::Min);
    for v in [5, 3, 8, 1] {
        h.push(v);
    }
    assert_eq!(h.len(), 4);
    assert_eq!(h.pop(), Some(1));
    assert_eq!(h.pop(), Some(3));
    assert_eq!(h.pop(), Some(5));
    assert_eq!(h.pop(), Some(8));
    assert_eq!(h.len(), 0);
    assert_eq!(h.pop(), None);
}

#[test]
fn singleton_then_empty() {
    let mut h = BinomialHeap::with_order(HeapOrder::Min);
    h.push(23);
    assert_eq!(h.len(), 1);
    assert_eq!(h.peek(), Some(23));
    assert_eq!(h.pop(), Some(23));
    assert_eq!(h.pop(), None);
    assert_eq!(h.len(), 0);
    assert!(h.is_empty());
}

#[test]
fn merge_two_min_heaps() {
    let mut a = BinomialHeap::with_order(HeapOrder::Min);
    for v in [2, 4, 6] {
        a.push(v);
    }
    let mut b = BinomialHeap::with_order(HeapOrder::Min);
    for v in [1, 3, 5] {
        b.push(v);
    }
    a.merge(b);
    assert_eq!(a.len(), 6);
    assert_eq!(drain(&mut a), vec![1, 2, 3, 4, 5, 6]);
}

#[test]
fn merge_heaps_of_different_orders() {
    let mut a = BinomialHeap::with_order(HeapOrder::Max);
    for v in [2, 4, 6] {
        a.push(v);
    }
    let mut b = BinomialHeap::with_order(HeapOrder::Min);
    for v in [1, 3, 5, 7] {
        b.push(v);
    }
    a.merge(b);
    assert_eq!(a.order(), HeapOrder::Max);
    assert_eq!(a.len(), 7);
    assert_eq!(drain(&mut a), vec![7, 6, 5, 4, 3, 2, 1]);
}

#[test]
fn merge_with_empty_heaps() {
    let mut a = BinomialHeap::new();
    a.merge(BinomialHeap::new());
    assert!(a.is_empty());
    let mut b = BinomialHeap::new();
    b.push(9);
    a.merge(b);
    assert_eq!(a.len(), 1);
    a.merge(BinomialHeap::new());
    assert_eq!(a.pop(), Some(9));
}

#[test]
fn merge_drain_equals_sorted_union() {
    let mut a = BinomialHeap::with_order(HeapOrder::Min);
    let mut a2 = BinomialHeap::with_order(HeapOrder::Min);
    for v in [9, -4, 7, 7, 0] {
        a.push(v);
        a2.push(v);
    }
    let mut b = BinomialHeap::with_order(HeapOrder::Min);
    let mut b2 = BinomialHeap::with_order(HeapOrder::Min);
    for v in [3, 7, -10] {
        b.push(v);
        b2.push(v);
    }
    a.merge(b);
    let merged = a.drain_sorted();
    let mut separate = a2.drain_sorted();
    separate.extend(b2.drain_sorted());
    separate.sort();
    assert_eq!(merged, separate);
    assert_eq!(merged, vec![-10, -4, 0, 3, 7, 7, 7, 9]);
}

#[test]
fn duplicates_all_come_out() {
    let mut h = BinomialHeap::new();
    for _ in 0..5 {
        h.push(4);
    }
    h.push(2);
    assert_eq!(h.len(), 6);
    assert_eq!(drain(&mut h), vec![4, 4, 4, 4, 4, 2]);
}

#[test]
fn extreme_values() {
    let mut h = BinomialHeap::with_order(HeapOrder::Min);
    for v in [0, i32::MAX, i32::MIN, -1, 1] {
        h.push(v);
    }
    assert_eq!(h.peek(), Some(i32::MIN));
    assert_eq!(drain(&mut h), vec![i32::MIN, -1, 0, 1, i32::MAX]);
}

#[test]
fn len_counts_every_rank() {
    let mut h = BinomialHeap::new();
    for i in 0..1000 {
        h.push(i);
        assert_eq!(h.len(), (i + 1) as usize);
    }
    for i in 0..1000 {
        assert_eq!(h.pop(), Some(999 - i));
        assert_eq!(h.len(), (999 - i) as usize);
    }
    assert!(h.is_empty());
}

#[test]
fn drain_sorted_empties_the_heap() {
    let mut h = BinomialHeap::new();
    for v in [3, 1, 2] {
        h.push(v);
    }
    assert_eq!(h.drain_sorted(), vec![3, 2, 1]);
    assert!(h.is_empty());
    assert_eq!(h.drain_sorted(), Vec::<i32>::new());
}

#[test]
fn heap_sort_sorts_by_order() {
    let values = vec![5, -3, 8, 1, 8, 0];
    assert_eq!(heap_sort(HeapOrder::Min, &values), vec![-3, 0, 1, 5, 8, 8]);
    assert_eq!(heap_sort(HeapOrder::Max, &values), vec![8, 8, 5, 1, 0, -3]);
    assert_eq!(heap_sort(HeapOrder::Min, &Vec::new()), Vec::<i32>::new());
}

#[test]
fn pop_order_does_not_depend_on_push_order() {
    let a = heap_sort(HeapOrder::Min, &vec![4, 1, 3, 2]);
    let b = heap_sort(HeapOrder::Min, &vec![2, 3, 1, 4]);
    assert_eq!(a, b);
    assert_eq!(a, vec![1, 2, 3, 4]);
}

#[test]
fn render_nested_brackets() {
    let mut h = BinomialHeap::new();
    assert_eq!(h.render(), "[]");
    h.push(1);
    assert_eq!(h.render(), "[[1]]");
    h.push(2);
    assert_eq!(h.render(), "[[2 [[1]]]]");
    h.push(3);
    assert_eq!(h.render(), "[[3], [2 [[1]]]]");
    h.push(-40);
    assert_eq!(h.render(), "[[3 [[-40], [2 [[1]]]]]]");
}

#[test]
fn render_min_heap_with_extremes() {
    let mut h = BinomialHeap::with_order(HeapOrder::Min);
    h.push(i32::MIN);
    assert_eq!(h.render(), "[[-2147483648]]");
    h.push(i32::MAX);
    assert_eq!(h.render(), "[[-2147483648 [[2147483647]]]]");
    h.push(10);
    assert_eq!(h.render(), "[[10], [-2147483648 [[2147483647]]]]");
}

#[test]
fn equal_values_keep_the_first_root_on_top() {
    let mut h = BinomialHeap::new();
    h.push(7);
    h.push(7);
    h.push(7);
    assert_eq!(h.render(), "[[7], [7 [[7]]]]");
    assert_eq!(h.len(), 3);
}

#[test]
fn random_values_come_out_like_std_heap() {
    let mut rng = StdRng::seed_from_u64(1234);
    let values: Vec<i32> = (0..100).map(|_| rng.gen::<i32>()).collect();
    let mut sorted = values.clone();
    sorted.sort_by(|x, y| y.cmp(x));
    let mut heap = BinomialHeap::new();
    for v in &values {
        heap.push(*v);
    }
    assert_eq!(heap.len(), 100);
    assert_eq!(drain(&mut heap), sorted);
}

#[test]
fn random_interleavings_match_std_heap() {
    let mut rng = StdRng::seed_from_u64(42);
    for round in 0..20 {
        let order = if round % 2 == 0 { HeapOrder::Max } else { HeapOrder::Min };
        let mut heap = BinomialHeap::with_order(order);
        let mut reference: BinaryHeap<i32> = BinaryHeap::new();
        let mut reference_min: BinaryHeap<Reverse<i32>> = BinaryHeap::new();
        let mut got = Vec::new();
        let mut want = Vec::new();
        for _ in 0..300 {
            match rng.gen_range(0..4) {
                0 | 1 => {
                    let v = rng.gen_range(-50..50);
                    heap.push(v);
                    reference.push(v);
                    reference_min.push(Reverse(v));
                }
                2 => {
                    got.push(heap.pop());
                    match order {
                        HeapOrder::Max => want.push(reference.pop()),
                        HeapOrder::Min => want.push(reference_min.pop().map(|r| r.0)),
                    }
                }
                _ => {
                    let mut other = BinomialHeap::with_order(order);
                    for _ in 0..rng.gen_range(0..6) {
                        let v = rng.gen_range(-50..50);
                        other.push(v);
                        reference.push(v);
                        reference_min.push(Reverse(v));
                    }
                    heap.merge(other);
                }
            }
            let expected_len = match order {
                HeapOrder::Max => reference.len(),
                HeapOrder::Min => reference_min.len(),
            };
            assert_eq!(heap.len(), expected_len);
        }
        assert_eq!(got, want);
    }
}
