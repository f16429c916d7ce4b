use rankless::id_collections::{AliasMap, EdgeSet};
use rankless::ledger::ResolvedLedger;
use rankless::lens::{table_kind, Ids, Lens, TableKind};

fn ledger(authors: &[(u64, u64)], works: &[(u64, u64)], edges: &[(u64, u64)]) -> ResolvedLedger {
    let mut author_aliases = AliasMap::new();
    for &(k, v) in authors {
        author_aliases.insert(k, v);
    }
    let mut work_aliases = AliasMap::new();
    for &(k, v) in works {
        work_aliases.insert(k, v);
    }
    let mut removed_edges = EdgeSet::new();
    for &e in edges {
        removed_edges.insert(e);
    }
    ResolvedLedger { run_id: "r".to_string(), author_aliases, work_aliases, removed_edges }
}

fn row(fields: &[&str]) -> Vec<String> {
    fields.iter().map(|f| f.to_string()).collect()
}

#[test]
fn tables_are_told_apart_by_entity_and_part() {
    assert_eq!(table_kind("works", "main"), TableKind::WorksMain);
    assert_eq!(table_kind("authors", "main"), TableKind::AuthorsMain);
    assert_eq!(table_kind("works", "authorships"), TableKind::Authorships);
    assert_eq!(table_kind("works", "referenced_works"), TableKind::References);
    assert_eq!(table_kind("works", "topics"), TableKind::WorkParts);
    assert_eq!(table_kind("works", "locations"), TableKind::WorkParts);
    assert_eq!(table_kind("institutions", "main"), TableKind::Other);
}

#[test]
fn an_empty_ledger_or_an_untouched_table_has_no_lens() {
    let empty = ledger(&[], &[], &[]);
    assert!(Lens::new(&empty, "works", "main", &row(&["id"])).is_none());
    let l = ledger(&[(2, 1)], &[], &[]);
    assert!(Lens::new(&l, "institutions", "main", &row(&["id"])).is_none());
    // the works table is untouched while only authors merge
    assert!(Lens::new(&l, "works", "main", &row(&["id"])).is_none());
    assert!(Lens::new(&l, "authors", "main", &row(&[])).is_none());
}

#[test]
fn authorships_merge_both_ids_and_lose_removed_edges() {
    let l = ledger(&[(20, 10)], &[(11, 10)], &[(10, 10)]);
    let lens = Lens::new(&l, "works", "authorships", &row(&["parent_id", "author", "institution"])).unwrap();
    assert_eq!(lens.aliased, vec![(0, Ids::Works), (1, Ids::Authors)]);
    assert_eq!(lens.dropped, None);
    assert_eq!(lens.edge, Some((1, 0)));

    let mut rec = row(&["https://openalex.org/W11", "https://openalex.org/A20", "I1"]);
    assert!(!lens.keeps(&l, &mut rec));
    assert_eq!(rec, row(&["https://openalex.org/W10", "https://openalex.org/A10", "I1"]));

    let mut other = row(&["https://openalex.org/W5", "https://openalex.org/A7", "I2"]);
    assert!(lens.keeps(&l, &mut other));
    assert_eq!(other, row(&["https://openalex.org/W5", "https://openalex.org/A7", "I2"]));
}

#[test]
fn a_main_row_of_a_merge_drop_side_does_not_exist() {
    let l = ledger(&[], &[(11, 10)], &[]);
    let lens = Lens::new(&l, "works", "main", &row(&["title", "id"])).unwrap();
    assert_eq!(lens.dropped, Some((1, Ids::Works)));
    let mut dropped = row(&["t", "https://openalex.org/W11"]);
    assert!(!lens.keeps(&l, &mut dropped));
    assert_eq!(dropped, row(&["t", "https://openalex.org/W11"]));
    let mut kept = row(&["t", "https://openalex.org/W10"]);
    assert!(lens.keeps(&l, &mut kept));
}

#[test]
fn references_read_both_works_as_keep_ids() {
    let l = ledger(&[], &[(11, 10), (12, 10)], &[]);
    let lens = Lens::new(&l, "works", "referenced_works", &row(&["parent_id", "referenced_work_id"])).unwrap();
    let mut rec = row(&["https://openalex.org/W12", "https://openalex.org/W11"]);
    assert!(lens.keeps(&l, &mut rec));
    assert_eq!(rec, row(&["https://openalex.org/W10", "https://openalex.org/W10"]));
}
