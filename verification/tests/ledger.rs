use rankless::id_collections::{AliasMap, IdSet, TextIdMap};
use rankless::ledger::{
    path_compress, AuthorSubject, EventPayload, LedgerEventLine, SkipReason, SnapshotIds,
    UserLedger, WorkSubject,
};

fn alias_map(pairs: &[(u64, u64)]) -> AliasMap {
    let mut m = AliasMap::new();
    for &(k, v) in pairs {
        m.insert(k, v);
    }
    m
}

fn sorted_pairs(m: &AliasMap) -> Vec<(u64, u64)> {
    let mut v: Vec<(u64, u64)> = m.keys().into_iter().map(|k| (k, m.get(k).unwrap())).collect();
    v.sort();
    v
}

fn id_set(ids: &[u64]) -> IdSet {
    let mut s = IdSet::new();
    for &i in ids {
        s.insert(i);
    }
    s
}

fn text_ids(pairs: &[(&str, u64)]) -> TextIdMap {
    let mut m = TextIdMap::new();
    for &(k, v) in pairs {
        m.insert(k.to_string(), v);
    }
    m
}

fn event(key: &str, orcid: &str, payload: EventPayload) -> LedgerEventLine {
    LedgerEventLine { key: key.to_string(), orcid: orcid.to_string(), payload }
}

fn work(oa_id: Option<u64>, doi: Option<&str>) -> WorkSubject {
    WorkSubject { oa_id, doi: doi.map(|d| d.to_string()) }
}

fn author(oa_id: u64) -> AuthorSubject {
    AuthorSubject { oa_id: Some(oa_id) }
}

#[test]
fn path_compress_chain() {
    let mut m = alias_map(&[(1, 2), (2, 3)]);
    path_compress(&mut m);
    assert_eq!(m.get(1), Some(3));
    assert_eq!(m.get(2), Some(3));
}

#[test]
fn path_compress_flat() {
    let mut m = alias_map(&[(1, 5), (2, 5)]);
    path_compress(&mut m);
    assert_eq!(m.get(1), Some(5));
    assert_eq!(m.get(2), Some(5));
}

#[test]
fn claim_paper_collects_canonical_doi() {
    let mut ul = UserLedger::default();
    ul.apply_event(event(
        "0-1|claim_paper|h",
        "0-1",
        EventPayload::ClaimPaper { work: work(None, Some("https://doi.org/10.1000/XYZ")) },
    ));
    assert_eq!(
        ul.claims,
        vec![(
            "0-1|claim_paper|h".to_string(),
            "0-1".to_string(),
            "10.1000/xyz".to_string()
        )]
    );

    ul.apply_event(event(
        "0-1|claim_paper|h2",
        "0-1",
        EventPayload::ClaimPaper { work: work(Some(5), None) },
    ));
    assert_eq!(ul.skipped.len(), 1);
    assert_eq!(ul.skipped[0].reason, SkipReason::MissingOaIdOrOrcid);
}

#[test]
fn resolve_requires_keep_and_settles_in_keep_space() {
    let mut ul = UserLedger::default();
    for (key, payload) in [
        ("o|merge_authors|a", EventPayload::MergeAuthors { keep: author(1), drop: author(2) }),
        ("o|merge_authors|b", EventPayload::MergeAuthors { keep: author(9), drop: author(3) }),
        (
            "o|merge_papers|c",
            EventPayload::MergePapers { keep: work(Some(10), None), drop: work(Some(11), None) },
        ),
        ("o|disown_paper|d", EventPayload::DisownPaper { work: work(Some(11), None) }),
        ("o|claim_paper|e", EventPayload::ClaimPaper { work: work(None, Some("10.1/x")) }),
    ] {
        ul.apply_event(event(key, "o", payload));
    }
    ul.owner_pin_orcids.insert("o".into());
    let ids = SnapshotIds {
        orcid_to_oa: text_ids(&[("o", 2)]),
        authors: id_set(&[1]),
        works: id_set(&[10, 11]),
        doi_to_work: text_ids(&[("10.1/x", 11)]),
    };
    let (resolved, outcomes) = ul.resolve(&ids);
    assert_eq!(sorted_pairs(&resolved.author_aliases), vec![(2, 1)]);
    assert_eq!(sorted_pairs(&resolved.work_aliases), vec![(11, 10)]);
    // the owner's own id and the disowned work both read in keep space
    assert_eq!(resolved.removed_edges.items(), vec![(1, 10)]);
    assert_eq!(outcomes.pins.items(), vec![1]);
    assert_eq!(outcomes.claims.len(), 1);
    assert_eq!(
        (outcomes.claims[0].claimant, outcomes.claims[0].work),
        (1, 10)
    );
    assert_eq!(outcomes.applied.len(), 3);
    assert_eq!(outcomes.skipped.len(), 1);
    assert_eq!(outcomes.skipped[0].key, "o|merge_authors|b");
}

#[test]
fn events_without_what_they_need_are_skipped() {
    let mut ul = UserLedger::new();
    ul.apply_event(event(
        "k1",
        "https://orcid.org/0000-0001",
        EventPayload::MergeAuthors { keep: author(4), drop: author(4) },
    ));
    ul.apply_event(event(
        "k2",
        "",
        EventPayload::DisownPaper { work: work(Some(7), None) },
    ));
    ul.apply_event(event(
        "k3",
        "https://orcid.org/0000-0001",
        EventPayload::DisownPaper { work: work(Some(7), None) },
    ));
    ul.apply_event(event("k4", "x", EventPayload::Revoke));
    ul.apply_event(event(
        "k5",
        "x",
        EventPayload::MergePapers { keep: work(None, None), drop: work(Some(1), None) },
    ));
    assert_eq!(ul.author_merges.len(), 0);
    assert_eq!(ul.disowns, vec![("k3".to_string(), "0000-0001".to_string(), 7)]);
    let reasons: Vec<(String, SkipReason)> =
        ul.skipped.iter().map(|s| (s.key.clone(), s.reason)).collect();
    assert_eq!(
        reasons,
        vec![
            ("k1".to_string(), SkipReason::MissingOaId),
            ("k2".to_string(), SkipReason::MissingOaIdOrOrcid),
            ("k5".to_string(), SkipReason::MissingOaId),
        ]
    );
}

#[test]
fn chained_merges_settle_on_the_last_keep() {
    let mut ul = UserLedger::new();
    ul.apply_event(event("a", "o", EventPayload::MergeAuthors { keep: author(2), drop: author(1) }));
    ul.apply_event(event("b", "o", EventPayload::MergeAuthors { keep: author(3), drop: author(2) }));
    ul.apply_event(event("c", "o", EventPayload::ClaimPaper { work: work(None, Some("10.9/Y")) }));
    ul.apply_event(event("d", "p", EventPayload::ClaimPaper { work: work(None, Some("10.9/y")) }));
    ul.apply_event(event("e", "o", EventPayload::ClaimPaper { work: work(None, Some("10.9/z")) }));
    let ids = SnapshotIds {
        orcid_to_oa: text_ids(&[("o", 1)]),
        authors: id_set(&[2, 3]),
        works: id_set(&[5]),
        doi_to_work: text_ids(&[("10.9/y", 5)]),
    };
    let referenced = ul.referenced();
    let mut authors = referenced.authors.items();
    authors.sort();
    assert_eq!(authors, vec![2, 3]);
    let (resolved, outcomes) = ul.resolve(&ids);
    assert_eq!(sorted_pairs(&resolved.author_aliases), vec![(1, 3), (2, 3)]);
    assert!(resolved.removed_edges.items().is_empty());
    assert!(!resolved.is_empty());
    assert_eq!(outcomes.claims.len(), 1);
    assert_eq!((outcomes.claims[0].claimant, outcomes.claims[0].work), (3, 5));
    let reasons: Vec<(String, SkipReason)> =
        outcomes.skipped.iter().map(|s| (s.key.clone(), s.reason)).collect();
    assert_eq!(
        reasons,
        vec![
            ("d".to_string(), SkipReason::OrcidNotInDataset),
            ("e".to_string(), SkipReason::DoiNotInSnapshot),
        ]
    );
}

#[test]
fn an_empty_ledger_resolves_to_nothing() {
    let (resolved, outcomes) = UserLedger::new().resolve(&SnapshotIds::new());
    assert!(resolved.is_empty());
    assert!(outcomes.applied.is_empty());
    assert!(outcomes.skipped.is_empty());
    assert!(outcomes.pins.items().is_empty());
}

#[test]
fn claims_settle_by_credit_and_lists_come_sorted() {
    let mut ul = UserLedger::new();
    ul.apply_event(event("z|merge", "o", EventPayload::MergeAuthors { keep: author(1), drop: author(2) }));
    ul.apply_event(event("c|claim", "o", EventPayload::ClaimPaper { work: work(None, Some("10.1/a")) }));
    ul.apply_event(event("b|claim", "o", EventPayload::ClaimPaper { work: work(None, Some("10.1/b")) }));
    ul.apply_event(event("a|merge", "o", EventPayload::MergeAuthors { keep: author(7), drop: author(8) }));
    let ids = SnapshotIds {
        orcid_to_oa: text_ids(&[("o", 2)]),
        authors: id_set(&[1]),
        works: id_set(&[30, 40]),
        doi_to_work: text_ids(&[("10.1/a", 30), ("10.1/b", 40)]),
    };
    let (_, outcomes) = ul.resolve(&ids);
    let mut credited = rankless::id_collections::EdgeSet::new();
    credited.insert((1, 40));
    let (applied, skipped) = outcomes.settle(&credited);
    assert_eq!(applied, vec!["b|claim".to_string(), "z|merge".to_string()]);
    let skipped: Vec<(String, SkipReason)> =
        skipped.iter().map(|s| (s.key.clone(), s.reason)).collect();
    assert_eq!(
        skipped,
        vec![
            ("a|merge".to_string(), SkipReason::OaIdNotInDataset),
            ("c|claim".to_string(), SkipReason::ClaimantNotAttributed),
        ]
    );
}

#[test]
fn circular_merges_do_not_resolve() {
    let mut ul = UserLedger::new();
    ul.apply_event(event("a", "o", EventPayload::MergeAuthors { keep: author(2), drop: author(1) }));
    ul.apply_event(event("b", "o", EventPayload::MergeAuthors { keep: author(1), drop: author(2) }));
    let ids = SnapshotIds {
        orcid_to_oa: text_ids(&[]),
        authors: id_set(&[1, 2]),
        works: id_set(&[]),
        doi_to_work: text_ids(&[]),
    };
    assert!(!ul.resolvable(&ids));
    let only_one = SnapshotIds {
        orcid_to_oa: text_ids(&[]),
        authors: id_set(&[2]),
        works: id_set(&[]),
        doi_to_work: text_ids(&[]),
    };
    assert!(ul.resolvable(&only_one));
    assert!(rankless::ledger::aliases_settle(&alias_map(&[(1, 2), (2, 3), (4, 4)])));
    assert!(!rankless::ledger::aliases_settle(&alias_map(&[(1, 2), (2, 3), (3, 1)])));
}
