use rankless::scoring::{author_citing_hits, citing_score, hit_paper_links, top_hits, top_source};

#[test]
fn a_work_takes_its_first_source_of_the_best_quartile() {
    assert_eq!(top_source(&vec![(3, Some(2)), (4, Some(1)), (5, Some(1)), (6, None)]), 4);
    assert_eq!(top_source(&vec![(3, Some(0)), (4, None)]), 3);
    assert_eq!(top_source(&vec![]), 0);
}

#[test]
fn citing_scores_weigh_citations_and_source_prestige() {
    assert_eq!(citing_score(10, ([4, 7], 2)), 256);
    assert_eq!(citing_score(10, ([4, 7], 7)), 136);
    assert_eq!(citing_score(0, ([0, 0], 5)), 1);
}

#[test]
fn hit_paper_links_score_direct_and_once_removed_authors() {
    let refs = vec![vec![1, 2], vec![3], vec![4, 3], vec![], vec![]];
    let authors = vec![vec![10], vec![11, 10], vec![12], vec![13, 11], vec![14]];
    let scores = vec![5, 1, 2, 4, 7];
    let (direct, once) = hit_paper_links(0, &refs, &authors, &scores);
    assert_eq!(direct, vec![(11, 3), (12, 6)]);
    assert_eq!(once, vec![(13, 4), (14, 7)]);
}

#[test]
fn top_hits_keep_the_hit_papers_of_the_highest_pairs() {
    let direct = vec![(5, 10), (6, 30)];
    let once = vec![(7, 20), (6, 10)];
    assert_eq!(top_hits(&direct, &once, 2), (vec![6], vec![6, 7]));
    assert_eq!(top_hits(&direct, &once, 50), (vec![5, 6], vec![6, 7]));
    assert_eq!(top_hits(&direct, &once, 0), (vec![], vec![]));
}

#[test]
fn each_author_keeps_the_hit_papers_of_its_best_links() {
    let refs = vec![vec![1, 2], vec![3], vec![4, 3], vec![], vec![]];
    let authors = vec![vec![10], vec![11, 10], vec![12], vec![13, 11], vec![14]];
    let scores = vec![5, 1, 2, 4, 7];
    let res = author_citing_hits(20, &vec![(0, 77), (2, 78)], &refs, &authors, &scores, 50);
    assert_eq!(res.len(), 20);
    assert_eq!(res[11], (vec![77, 78], vec![]));
    assert_eq!(res[12], (vec![77], vec![]));
    assert_eq!(res[13], (vec![78], vec![77]));
    assert_eq!(res[14], (vec![78], vec![77]));
    assert_eq!(res[10], (vec![], vec![]));
    let capped = author_citing_hits(20, &vec![(0, 77), (2, 78)], &refs, &authors, &scores, 1);
    assert_eq!(capped[14], (vec![78], vec![]));
}
