use rankless::pages::{author_page_test, page_filter};

#[test]
fn a_page_needs_a_name_papers_and_citations() {
    assert_eq!(page_filter("Ada Lovelace", 3, 2, true), 1);
    assert_eq!(page_filter("   ", 3, 2, true), 0);
    assert_eq!(page_filter("", 3, 2, true), 0);
    assert_eq!(page_filter("Ada", 2, 2, true), 0);
    assert_eq!(page_filter("Ada", 3, 1, true), 0);
    assert_eq!(page_filter("Ada", 3, 2, false), 0);
}

#[test]
fn authors_with_too_many_papers_get_no_page_unless_pinned() {
    assert!(author_page_test(false, 50, &vec![10, 20], false));
    assert!(!author_page_test(false, 10_000, &vec![10], false));
    assert!(!author_page_test(false, 50, &vec![10, 300], false));
    assert!(!author_page_test(false, 50, &vec![10], true));
    assert!(author_page_test(true, 20_000, &vec![500], true));
}
