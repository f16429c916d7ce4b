use rankless::metrics::{cohort_desc, ladder_row};

#[test]
fn the_cohort_is_the_nonzero_counts_largest_first() {
    assert_eq!(cohort_desc(&vec![0, 5, 1, 0, 9, 5]), vec![9, 5, 5, 1]);
    assert_eq!(cohort_desc(&vec![0, 0]), Vec::<u32>::new());
}

#[test]
fn ladder_rows_pick_each_rank_held_within_the_cohort() {
    let cohort = vec![9, 5, 5, 1];
    assert_eq!(ladder_row(&cohort, &vec![1, 2, 4, 0, 7]), vec![9, 5, 1, 9, 1]);
    assert_eq!(ladder_row(&vec![], &vec![1, 3]), vec![u32::MAX, u32::MAX]);
}
