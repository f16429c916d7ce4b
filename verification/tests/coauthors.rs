use rankless::coauthors::coauthor_counts;

#[test]
fn coauthors_are_counted_without_the_author() {
    // works: 0 by authors 0,1 ; 1 by authors 0,1,2 ; 2 by author 2
    let work_authors = vec![vec![0u32, 1], vec![0, 1, 2], vec![2]];
    let author_works = vec![vec![0u32, 1], vec![0, 1], vec![1, 2]];
    let mut res = coauthor_counts(&author_works, &work_authors);
    for row in res.iter_mut() {
        row.sort();
    }
    assert_eq!(res[0], vec![(1, 2), (2, 1)]);
    assert_eq!(res[1], vec![(0, 2), (2, 1)]);
    assert_eq!(res[2], vec![(0, 1), (1, 1)]);
}

#[test]
fn coauthor_counts_stop_at_the_cap() {
    let work_authors: Vec<Vec<u32>> = (0..250).map(|_| vec![0u32, 1]).collect();
    let author_works = vec![(0..250u32).collect::<Vec<u32>>(), vec![0u32]];
    let res = coauthor_counts(&author_works, &work_authors);
    assert_eq!(res[0], vec![(1, 201)]);
    assert_eq!(res[1], vec![(0, 1)]);
}

#[test]
fn an_author_without_works_has_no_coauthors() {
    let work_authors = vec![vec![1u32]];
    let author_works = vec![vec![], vec![0u32]];
    let res = coauthor_counts(&author_works, &work_authors);
    assert!(res[0].is_empty());
    assert!(res[1].is_empty());
}
