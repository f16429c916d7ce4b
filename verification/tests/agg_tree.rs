use rankless::agg_tree::MinHeap;

#[test]
fn keys_come_out_smallest_first() {
    let mut heap = MinHeap::new();
    for k in [5u64, 1, 3, 1] {
        heap.push(k);
    }
    assert_eq!(heap.pop(), Some(1));
    assert_eq!(heap.pop(), Some(1));
    heap.push(2);
    assert_eq!(heap.pop(), Some(2));
    assert_eq!(heap.pop(), Some(3));
    assert_eq!(heap.pop(), Some(5));
    assert_eq!(heap.pop(), None);
}

#[test]
fn a_heap_from_keys_drains_them_in_order() {
    let mut heap = MinHeap::from_iter(vec![9u64, 4, 7]);
    let mut out = Vec::new();
    while let Some(k) = heap.pop() {
        out.push(k);
    }
    assert_eq!(out, vec![4, 7, 9]);
}
