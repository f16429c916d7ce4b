use rankless::semantic_ids::{assign_semantic_ids, semantify};

fn names(v: &[&[&str]]) -> Vec<Vec<String>> {
    v.iter().map(|n| n.iter().map(|s| s.to_string()).collect()).collect()
}

#[test]
fn slugs_are_the_query_words_joined() {
    assert_eq!(semantify("Budapest University of Technology"), "budapest-university-of-technology");
    assert_eq!(semantify("Universität Wien!"), "universitat-wien");
    assert_eq!(semantify("C3PO  droid"), "cpo-droid");
    assert_eq!(semantify(""), "");
}

#[test]
fn ids_go_to_the_busiest_first_and_clashes_take_suffixes() {
    let n = names(&[&["mit"], &["mit", "mit-boston"], &[], &["mit"]]);
    let ids = assign_semantic_ids(&[5, 10, 0, 5], &n, 5);
    assert_eq!(ids, vec!["mit-3", "mit", "", "mit-2", ""]);
}

#[test]
fn a_later_name_is_taken_before_any_suffix() {
    let n = names(&[&["a", "b"], &["a"], &["a", "b"]]);
    let ids = assign_semantic_ids(&[3, 2, 1], &n, 3);
    assert_eq!(ids, vec!["a", "a-2", "b"]);
}
