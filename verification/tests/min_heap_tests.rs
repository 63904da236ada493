use data_compression::min_heap::MinHeap;

#[test]
fn heap_starts_empty() {
    let mut heap = MinHeap::new();
    assert_eq!(heap.len(), 0);
    assert_eq!(heap.pop(), None);
    assert_eq!(heap.len(), 0);
}

#[test]
fn heap_hands_out_the_lightest_first() {
    let mut heap = MinHeap::new();
    for (i, w) in [5u128, 3, 8, 1, 9, 2, 7].iter().enumerate() {
        heap.push((*w, i));
    }
    assert_eq!(heap.len(), 7);
    let mut out = Vec::new();
    while let Some(entry) = heap.pop() {
        out.push(entry);
    }
    assert_eq!(out, vec![(1, 3), (2, 5), (3, 1), (5, 0), (7, 6), (8, 2), (9, 4)]);
    assert_eq!(heap.len(), 0);
}

#[test]
fn heap_keeps_equal_weights() {
    let mut heap = MinHeap::new();
    heap.push((4, 10));
    heap.push((4, 11));
    heap.push((4, 12));
    heap.push((1, 13));
    assert_eq!(heap.pop(), Some((1, 13)));
    let mut rest = vec![heap.pop().unwrap(), heap.pop().unwrap(), heap.pop().unwrap()];
    rest.sort();
    assert_eq!(rest, vec![(4, 10), (4, 11), (4, 12)]);
    assert_eq!(heap.pop(), None);
}

#[test]
fn heap_orders_many_entries() {
    let mut heap = MinHeap::new();
    let mut weights = Vec::new();
    let mut x: u128 = 12345;
    for i in 0..2000usize {
        x = (x * 6364136223846793005 + 1442695040888963407) % (1 << 64);
        weights.push(x % 500);
        heap.push((x % 500, i));
        if i % 3 == 2 {
            let (w, at) = heap.pop().unwrap();
            assert_eq!(weights[at], w);
            assert_eq!(w, *weights.iter().min().unwrap());
            weights[at] = u128::MAX;
        }
    }
    let mut last = 0;
    while let Some((w, at)) = heap.pop() {
        assert!(last <= w);
        assert_eq!(weights[at], w);
        last = w;
    }
}

#[test]
fn heap_takes_the_largest_weight() {
    let mut heap = MinHeap::new();
    heap.push((u128::MAX, 0));
    heap.push((0, usize::MAX));
    assert_eq!(heap.pop(), Some((0, usize::MAX)));
    assert_eq!(heap.pop(), Some((u128::MAX, 0)));
}
