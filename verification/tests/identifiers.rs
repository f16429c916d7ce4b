use rankless::identifiers::{canonical_doi, normalize_orcid, strip_doi_prefix, with_id};

#[test]
fn normalize_orcid_strips_prefix() {
    assert_eq!(
        normalize_orcid("https://orcid.org/0000-0001-2345-6789"),
        "0000-0001-2345-6789"
    );
    assert_eq!(
        normalize_orcid("0000-0001-2345-6789"),
        "0000-0001-2345-6789"
    );
}

#[test]
fn canonical_doi_forms() {
    assert_eq!(canonical_doi("10.1000/xyz"), "10.1000/xyz");
    assert_eq!(
        canonical_doi(" https://dx.doi.org/10.1000/XYZ "),
        "10.1000/xyz"
    );
    assert_eq!(strip_doi_prefix("https://doi.org/10.1/XYZ"), "10.1/XYZ");
    assert_eq!(strip_doi_prefix("10.1/x"), "10.1/x");
}

#[test]
fn with_id_keeps_the_prefix() {
    assert_eq!(
        with_id("https://openalex.org/W12", 7),
        "https://openalex.org/W7"
    );
    assert_eq!(with_id("A1", 22), "A22");
    assert_eq!(with_id("33", 4), "4");
}

#[test]
fn a_doi_prefix_matches_in_any_case_and_only_the_first_one_goes() {
    assert_eq!(strip_doi_prefix("HTTPS://DOI.ORG/10.5/A"), "10.5/A");
    assert_eq!(strip_doi_prefix("\u{a0}http://dx.doi.org/10.9/b\t"), "10.9/b");
    assert_eq!(strip_doi_prefix("https://doi.org/https://doi.org/1"), "https://doi.org/1");
    assert_eq!(strip_doi_prefix("   "), "");
}
