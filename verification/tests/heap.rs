use fibonacci_heap::FibonacciHeap;

#[test]
fn constructors() {
    let heap = FibonacciHeap::new();
    assert!(heap.top().is_none());

    let heap = FibonacciHeap::from_vec(vec![]);
    assert!(heap.top().is_none());
}

#[test]
fn pop() {
    let mut heap = FibonacciHeap::from_vec(vec![3, 5, 1, 9]);
    assert_eq!(heap.pop().unwrap(), 1);
    assert_eq!(heap.pop().unwrap(), 3);
    assert_eq!(heap.pop().unwrap(), 5);
    assert_eq!(heap.pop().unwrap(), 9);
}

#[test]
fn append() {
    let mut heap = FibonacciHeap::from_vec(vec![3, 5, 1, 9]);
    let heap2 = FibonacciHeap::from_vec(vec![8, 2, 7, 4, 6]);
    heap.append(heap2);
    for i in 1..=9 {
        assert_eq!(heap.pop().unwrap(), i);
    }
}

#[test]
fn pop_large() {
    let mut heap = FibonacciHeap::new();
    for i in (0..1000000u64).rev() {
        heap.push(i);
    }
    for (i, v) in heap.into_vec().into_iter().enumerate() {
        assert_eq!(i as u64, v);
    }
}
