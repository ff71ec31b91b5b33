use nearest_neighbors::{LimitedHeap, OrdItem};

#[test]
fn test_heap_insertion() {
    let mut heap = LimitedHeap::new(3);

    heap.push(OrdItem(10, 0));
    heap.push(OrdItem(20, 1));
    heap.push(OrdItem(5, 2));
    heap.push(OrdItem(1, 3));
    heap.push(OrdItem(15, 4));

    assert_eq!(heap.len(), 3);

    assert_eq!(heap.pop(), Some(OrdItem(10, 0)));
    assert_eq!(heap.pop(), Some(OrdItem(5, 2)));
    assert_eq!(heap.pop(), Some(OrdItem(1, 3)));
}

#[test]
fn heap_keeps_k_best_in_any_order() {
    // The same distinct scores inserted in two different orders retain the
    // same three best items.
    let scores_a = [7i64, 3, 9, 1, 5, 8];
    let scores_b = [8i64, 5, 1, 9, 3, 7];

    let mut ha = LimitedHeap::new(3);
    for (i, s) in scores_a.iter().enumerate() {
        ha.push(OrdItem(*s, 100 + i));
    }
    let mut hb = LimitedHeap::new(3);
    for (i, s) in scores_b.iter().enumerate() {
        hb.push(OrdItem(*s, 200 + i));
    }

    let mut a: Vec<i64> = ha.consume().iter().map(|it| it.0).collect();
    let mut b: Vec<i64> = hb.consume().iter().map(|it| it.0).collect();
    a.sort();
    b.sort();
    assert_eq!(a, vec![1, 3, 5]);
    assert_eq!(b, vec![1, 3, 5]);
}

#[test]
fn heap_capacity_zero_retains_nothing() {
    let mut heap = LimitedHeap::new(0);
    heap.push(OrdItem(1, 0));
    heap.push(OrdItem(2, 1));
    assert_eq!(heap.len(), 0);
    assert_eq!(heap.pop(), None);
}

#[test]
fn heap_worst_is_maximum() {
    let mut heap = LimitedHeap::new(4);
    heap.push(OrdItem(4, 0));
    heap.push(OrdItem(2, 1));
    heap.push(OrdItem(9, 2));
    assert_eq!(heap.worst(), Some(OrdItem(9, 2)));
    assert_eq!(heap.capacity(), 4);
}

#[test]
fn heap_consume_sorts_best_first() {
    let mut heap = LimitedHeap::new(10);
    heap.push(OrdItem(4, 0));
    heap.push(OrdItem(2, 1));
    heap.push(OrdItem(9, 2));
    heap.push(OrdItem(2, 3));
    let out = heap.consume();
    let pairs: Vec<(i64, usize)> = out.iter().map(|it| (it.0, it.1)).collect();
    assert_eq!(pairs, vec![(2, 1), (2, 3), (4, 0), (9, 2)]);
}
