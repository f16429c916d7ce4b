use rankless::screens::split_semicolons;
use rankless::screens::group_rows;
use rankless::screens::{group_edges, parse_edges};
use rankless::screens::{authorship_groups, AuthorshipRow};
use rankless::id_collections::{AliasMap, IdSet};
use rankless::metrics::work_screen;
use rankless::screens::{
    grows_entry, judge_author, judge_work, keeps_institution, map_work_ids, screen_authorships,
    screen_institutions, screen_sources, split_author_ids, WorkVerdict,
};

fn id_set(ids: &[u64]) -> IdSet {
    let mut s = IdSet::new();
    for &i in ids {
        s.insert(i);
    }
    s
}

fn sorted_groups(mut v: Vec<(u64, Vec<u64>)>) -> Vec<(u64, Vec<u64>)> {
    for g in v.iter_mut() {
        g.1.sort();
    }
    v.sort();
    v
}

fn sorted(mut v: Vec<u64>) -> Vec<u64> {
    v.sort();
    v
}

#[test]
fn sources_keep_enough_targets_and_pins_ride_through() {
    let groups = vec![(1u64, vec![10u64, 11]), (2, vec![12]), (3, vec![13, 14, 15]), (4, vec![])];
    let (sources, targets, out) = screen_sources(&groups, 2, 2, true, None);
    assert_eq!(sources, vec![1]);
    assert_eq!(sorted(targets.items()), vec![10, 11]);
    assert!(out.is_empty());

    let (sources, targets, out) = screen_sources(&groups, 1, usize::MAX, false, Some(&id_set(&[2, 4, 9])));
    assert_eq!(&sources[..3], &[1, 2, 3]);
    assert_eq!(sorted(sources[3..].to_vec()), vec![4, 9]);
    assert!(targets.items().is_empty());
    assert_eq!(sorted(out), vec![4, 9]);
}

#[test]
fn entries_stop_growing_once_the_minimum_is_met() {
    assert!(grows_entry(true, false, 10, 1));
    assert!(grows_entry(false, false, 0, 1));
    assert!(!grows_entry(false, false, 1, 1));
    assert!(grows_entry(false, true, 5, 1));
}

#[test]
fn institutions_need_enough_works() {
    let groups = vec![(7u64, vec![1u64, 2, 3]), (8, vec![1]), (9, vec![4, 5])];
    assert_eq!(screen_institutions(&groups, 2), vec![7, 9]);
    assert!(!keeps_institution(4210095297, true));
    assert!(!keeps_institution(4210109586, true));
    assert!(keeps_institution(5, true));
    assert!(!keeps_institution(5, false));
}

#[test]
fn hyperauthored_works_drop_unless_pinned() {
    let many: Vec<u64> = (100..121).collect();
    let groups = vec![(1u64, vec![1u64, 2]), (2, many.clone()), (3, many)];
    let (works, authors) = screen_authorships(&groups, 20, &id_set(&[3]));
    assert_eq!(works, vec![1, 3]);
    let mut expected: Vec<u64> = vec![1, 2];
    expected.extend(100..121);
    assert_eq!(sorted(authors.items()), expected);
}

#[test]
fn works_pass_by_kind_or_by_pin_within_the_years() {
    let s = work_screen();
    assert_eq!(
        judge_work(&s, false, 2001, Some("article"), false),
        WorkVerdict { taken: true, forced: false, outside_type: false }
    );
    assert_eq!(
        judge_work(&s, false, 2001, Some("dataset"), true),
        WorkVerdict { taken: true, forced: true, outside_type: true }
    );
    assert_eq!(
        judge_work(&s, false, 2001, None, false),
        WorkVerdict { taken: false, forced: false, outside_type: false }
    );
    assert_eq!(
        judge_work(&s, true, 2001, Some("article"), true),
        WorkVerdict { taken: false, forced: false, outside_type: false }
    );
    assert_eq!(
        judge_work(&s, false, 1950, Some("article"), false),
        WorkVerdict { taken: false, forced: false, outside_type: false }
    );
}

#[test]
fn authors_pass_by_counts_or_by_pin() {
    let s = work_screen();
    assert_eq!(judge_author(&s, true, 400, 8, false), (true, false));
    assert_eq!(judge_author(&s, true, 399, 8, false), (false, false));
    assert_eq!(judge_author(&s, false, 1000, 100, true), (true, true));
    assert_eq!(judge_author(&s, true, 1000, 100, true), (true, false));
}

fn aliases(pairs: &[(u64, u64)]) -> AliasMap {
    let mut m = AliasMap::new();
    for &(k, v) in pairs {
        m.insert(k, v);
    }
    m
}

#[test]
fn merged_away_works_get_no_place() {
    let ids = vec![Some(10u64), None, Some(11), Some(12), Some(10)];
    assert_eq!(map_work_ids(&ids, &aliases(&[(11, 10)])), vec![10, 12, 10]);
}

#[test]
fn authors_split_into_selected_and_discarded() {
    let ids = vec![Some(1u64), Some(2), None, Some(3), Some(4), Some(5)];
    let (selected, discarded) = split_author_ids(&ids, &aliases(&[(3, 1)]), &id_set(&[1, 4, 9]));
    assert_eq!(selected, vec![1, 4]);
    assert_eq!(discarded, vec![2, 5]);
}

#[test]
fn rows_group_by_source_with_pre_filters_and_growth_cap() {
    let rows = vec![
        (Some(1u64), Some(10u64)),
        (Some(1), Some(11)),
        (Some(1), Some(10)),
        (None, Some(12)),
        (Some(2), None),
        (Some(3), Some(13)),
        (Some(1), Some(14)),
        (Some(4), Some(99)),
    ];
    let all = sorted_groups(group_rows(&rows, None, None, true, false, 0));
    assert_eq!(all, vec![(1, vec![10, 11, 14]), (3, vec![13]), (4, vec![99])]);
    // a group stops growing once it holds `min` targets
    let capped = sorted_groups(group_rows(&rows, None, None, false, false, 2));
    assert_eq!(capped, vec![(1, vec![10, 11]), (3, vec![13]), (4, vec![99])]);
    // with min 0 and no reason to grow, a source is still recorded, without targets
    let bare = sorted_groups(group_rows(&rows, None, None, false, false, 0));
    assert_eq!(bare, vec![(1, vec![]), (3, vec![]), (4, vec![])]);
    let filtered = sorted_groups(group_rows(&rows, Some(&id_set(&[1, 3])), Some(&id_set(&[10, 13])), true, false, 0));
    assert_eq!(filtered, vec![(1, vec![10]), (3, vec![13])]);
}

fn oa(letter: char, n: u64) -> String {
    format!("https://openalex.org/{}{}", letter, n)
}

#[test]
fn edges_read_their_ids_before_grouping() {
    let edges = vec![
        (oa('S', 5), oa('W', 1)),
        (oa('S', 5), oa('W', 2)),
        (oa('S', 6), String::from("https://openalex.org/Wxx")),
    ];
    assert_eq!(parse_edges(&edges), vec![(Some(5), Some(1)), (Some(5), Some(2)), (Some(6), None)]);
    assert_eq!(sorted_groups(group_edges(&edges, None, None, true, false, 0)), vec![(5, vec![1, 2])]);
}

#[test]
fn authorships_group_institutions_and_authors_of_filtered_works() {
    let row = |a: u64, insts: &[u64], w: u64| AuthorshipRow {
        author: oa('A', a),
        institutions: insts.iter().map(|&i| oa('I', i)).collect(),
        parent_id: oa('W', w),
    };
    let rows = vec![row(1, &[7, 8], 100), row(2, &[7], 101), row(3, &[7], 102), row(4, &[9], 200)];
    let (insts, works) = authorship_groups(&rows, &id_set(&[100, 101, 102]), 2);
    assert_eq!(sorted_groups(insts), vec![(7, vec![100, 101]), (8, vec![100])]);
    assert_eq!(sorted_groups(works), vec![(100, vec![1]), (101, vec![2]), (102, vec![3])]);
}

#[test]
fn institution_lists_split_at_semicolons() {
    assert_eq!(split_semicolons("a;bc;;d"), vec!["a", "bc", "", "d"]);
    assert_eq!(split_semicolons(""), vec![""]);
    assert_eq!(split_semicolons("é;"), vec!["é", ""]);
}
