use fibonacci_heap::FibonacciHeap;

#[test]
fn bulk_build_then_drain_is_sorted() {
    let heap = FibonacciHeap::from_vec(vec![7, 3, 3, 10, 0, 5, 7, 1]);
    assert_eq!(heap.into_vec(), vec![0, 1, 3, 3, 5, 7, 7, 10]);
}

#[test]
fn drain_keeps_duplicates() {
    let heap = FibonacciHeap::from_vec(vec![2, 2, 1, 1]);
    assert_eq!(heap.into_vec(), vec![1, 1, 2, 2]);
}

#[test]
fn top_matches_next_pop() {
    let mut heap = FibonacciHeap::from_vec(vec![4, 9, 2, 6]);
    while !heap.is_empty() {
        let seen = *heap.top().unwrap();
        assert_eq!(heap.pop().unwrap(), seen);
    }
    assert!(heap.top().is_none());
    assert!(heap.pop().is_none());
}

#[test]
fn counts_track_operations() {
    let mut heap = FibonacciHeap::from_vec(vec![5, 1, 4]);
    assert_eq!(heap.len(), 3);
    heap.push(2);
    assert_eq!(heap.len(), 4);
    assert!(heap.pop().is_some());
    assert_eq!(heap.len(), 3);

    let other = FibonacciHeap::from_vec(vec![8, 6]);
    heap.append(other);
    assert_eq!(heap.len(), 5);
}

#[test]
fn is_empty_iff_len_zero() {
    let mut heap = FibonacciHeap::new();
    assert!(heap.is_empty());
    assert_eq!(heap.len(), 0);
    assert!(heap.top().is_none());
    assert!(heap.pop().is_none());

    heap.push(3);
    assert!(!heap.is_empty());
    assert_eq!(heap.len(), 1);
    assert!(heap.top().is_some());

    assert_eq!(heap.pop(), Some(3));
    assert!(heap.is_empty());
    assert_eq!(heap.len(), 0);
}

#[test]
fn merging_empty_heap_keeps_drain() {
    let mut heap = FibonacciHeap::from_vec(vec![5, 2, 8, 2]);
    let empty = FibonacciHeap::new();
    heap.append(empty);
    assert_eq!(heap.into_vec(), vec![2, 2, 5, 8]);
}

#[test]
fn incremental_build_matches_bulk_build() {
    let values = [6u64, 0, 9, 4, 4, 11];
    let mut incremental = FibonacciHeap::new();
    for v in values {
        incremental.push(v);
    }
    let bulk = FibonacciHeap::from_vec(values.to_vec());
    assert_eq!(incremental.into_vec(), bulk.into_vec());
}

#[test]
fn reverse_ordered_bulk_build_drains_ascending() {
    let mut input: Vec<u64> = Vec::with_capacity(100000);
    for i in (0..100000u64).rev() {
        input.push(i);
    }
    let mut heap = FibonacciHeap::from_vec(input);
    assert_eq!(heap.pop().unwrap(), 0);
    for (i, v) in heap.into_vec().into_iter().enumerate() {
        assert_eq!(i as u64 + 1, v);
    }
}

#[test]
fn merge_then_drain_is_fully_sorted() {
    let mut a = FibonacciHeap::from_vec(vec![3, 5, 1, 9]);
    let b = FibonacciHeap::from_vec(vec![8, 2, 7, 4, 6]);
    a.append(b);
    let drained = a.into_vec();
    assert_eq!(drained, vec![1, 2, 3, 4, 5, 6, 7, 8, 9]);
}
