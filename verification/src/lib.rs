use vstd::prelude::*;

pub mod agg_tree;
pub mod biblio;
pub mod builder;
pub mod building;
pub mod coauthors;
pub mod codegen;
pub mod common;
pub mod engine;
pub mod entity;
pub mod expr;
pub mod farr;
pub mod expr_tree;
pub mod expr_parse;
pub mod expr_relex;
pub mod expr_reread;
pub mod expr_text;
pub mod fixed_heap;
pub mod gen;
pub mod id_collections;
pub mod identifiers;
pub mod io;
pub mod lens;
pub mod ledger;
pub mod links;
pub mod multi_word_law;
pub mod load_law;
pub mod merging;
pub mod meta_trait;
pub mod metrics;
pub mod query_law;
pub mod naming;
pub mod pages;
pub mod record_search;
pub mod records;
pub mod relations;
pub mod screens;
pub mod scoring;
pub mod search;
pub mod semantic_ids;
pub mod sorting;
pub mod srecs;
pub mod stack_basis;
pub mod text;
pub mod type_names;
pub mod var_size;
pub mod words;
pub mod years;

verus! {

/// Splits a prefixed count into its flag bit and the count behind it.
pub fn reverse_prefixed_n(prefixed_n: usize) -> (res: (bool, usize))
    ensures
        res.0 == (prefixed_n % 2 == 1),
        res.1 == prefixed_n / 2,
{
    let flag = (prefixed_n & 1) == 1;
    let n = prefixed_n >> 1;
    assert(((prefixed_n & 1) == 1) == (prefixed_n % 2 == 1)) by (bit_vector);
    assert(prefixed_n >> 1 == prefixed_n / 2) by (bit_vector);
    (flag, n)
}

} // verus!
