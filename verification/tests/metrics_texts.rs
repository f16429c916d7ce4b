use rankless::metrics::{
    fill, h_index, hit_paper_texts, is_scored, paper_score_texts, text_vars, top_n, work_screen,
    Level,
};

#[test]
fn only_finished_years_inside_the_screen_are_scored() {
    let ws = work_screen();
    assert!(!is_scored(ws.first_year - 1));
    assert!(is_scored(ws.first_year));
    assert!(is_scored(ws.final_year - 1));
    assert!(!is_scored(ws.final_year));
}

#[test]
fn h_counts_papers_cited_at_least_their_rank() {
    assert_eq!(h_index(&mut vec![3, 3, 2]), 2);
    assert_eq!(h_index(&mut vec![0]), 0);
    assert_eq!(h_index(&mut vec![]), 0);
    assert_eq!(h_index(&mut vec![1]), 1);
    assert_eq!(h_index(&mut vec![10, 8, 5, 4, 3]), 4);
    assert_eq!(h_index(&mut vec![25, 8, 5, 3, 3]), 3);
}

#[test]
fn a_template_takes_the_constants_and_leaves_a_parameter() {
    let vars = text_vars();
    assert_eq!(
        fill("{hit_multiple}× the top {top_share}", &vars),
        "1.5× the top 1%"
    );
    assert_eq!(fill("{subfield} score", &vars), "{subfield} score");
    assert_eq!(fill("{w_sf_year} {w_year}", &vars), "89.5% 10%");
    assert_eq!(fill("a { b", &vars), "a { b");
}

#[test]
fn the_methodology_texts_resolve_every_placeholder() {
    let vars = text_vars();
    for t in [paper_score_texts(), hit_paper_texts()] {
        for text in [t.label, t.meaning, t.rationale.unwrap_or("")] {
            assert!(!fill(text, &vars).contains('{'), "{}: {text}", t.id);
        }
    }
}

#[test]
fn a_level_names_its_entity_and_side() {
    assert_eq!(Level::citing("countries").to_string(), "countries-citing");
    assert_eq!(Level::refed("sources").to_string(), "sources-refed");
}

#[test]
fn the_screen_admits_listed_kinds_and_small_teams() {
    let ws = work_screen();
    assert!(ws.admits_kind(Some("article")));
    assert!(!ws.admits_kind(Some("dataset")));
    assert!(!ws.admits_kind(None));
    assert!(ws.admits_authorship(20));
    assert!(!ws.admits_authorship(21));
    assert!(ws.admits_publication(false, 1951));
    assert!(!ws.admits_publication(true, 2000));
    assert!(!ws.admits_publication(false, 1950));
}

#[test]
fn the_top_n_is_set_per_root() {
    assert_eq!(top_n("sources"), Some(1000));
    assert_eq!(top_n("authors"), Some(20));
    assert_eq!(top_n("works"), None);
}

#[test]
fn the_text_values_are_formatted_as_shown() {
    let vars = text_vars();
    let get = |k: &str| vars.iter().find(|(n, _)| *n == k).unwrap().1.clone();
    assert_eq!(get("w_sf"), "0.5%");
    assert_eq!(get("sf_year_min_papers"), "400");
    assert_eq!(get("first_year"), "1951");
    assert_eq!(get("last_scored_year"), "2025");
}
