use rankless::links::drop_later_references;

#[test]
fn references_to_later_works_are_dropped() {
    // years: work 0 in year 5, work 1 in year 3, work 2 unknown (0), work 3 in year 9
    let years = vec![5u8, 3, 0, 9];
    let refs = vec![vec![1u32, 3, 2], vec![0, 1], vec![3, 0], vec![]];
    let (kept, dropped) = drop_later_references(&refs, &years);
    assert_eq!(kept, vec![vec![1, 2], vec![1], vec![3, 0], vec![]]);
    assert_eq!(dropped, 2);
}

#[test]
fn a_work_without_a_year_keeps_every_reference() {
    let years = vec![0u8, 50];
    let refs = vec![vec![1u32, 1], vec![0]];
    let (kept, dropped) = drop_later_references(&refs, &years);
    assert_eq!(kept, refs);
    assert_eq!(dropped, 0);
}
