use rankless::metrics::citing_score;
use rankless::years::citing_year_counts;

#[test]
fn citing_score_weighs_citations_and_prestige() {
    assert_eq!(citing_score(7, ([10, 4], 1)), 482);
    assert_eq!(citing_score(7, ([10, 4], 7)), 82);
    assert_eq!(citing_score(0, ([0, 0], 0)), 1);
}

#[test]
fn citations_are_counted_by_year_from_the_paper_on() {
    // paper of year number 70 (2020); citations in 2019, 2020, 2022, 2022, 2026
    let counts = citing_year_counts(70, &vec![69, 70, 72, 72, 76]);
    assert_eq!(counts, vec![1, 0, 2, 0, 0, 0, 1]);
}
