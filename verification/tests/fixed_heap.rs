use rankless::fixed_heap::FixedHeap;

#[test]
fn pushes_leave_the_smallest_distinct_values_ascending() {
    let mut heap = FixedHeap::<3>::new();
    for e in [5u32, 1, 5, 9, 2, u32::MAX, 7, 1] {
        heap.push_unique(e);
    }
    assert_eq!(heap.into_iter(), vec![1, 2, 5]);
}

#[test]
fn fewer_pushes_than_slots_give_all_of_them() {
    let mut heap = FixedHeap::<4>::new();
    for e in [8u32, 3, 8] {
        heap.push_unique(e);
    }
    assert_eq!(heap.into_iter(), vec![3, 8]);
}

#[test]
fn a_fresh_heap_gives_nothing() {
    let heap = FixedHeap::<2>::new();
    assert_eq!(heap.into_iter(), Vec::<u32>::new());
}
