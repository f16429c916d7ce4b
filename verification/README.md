# rankless

The data-handling core of Rankless, a platform for browsing a large scholarly citation
network, written in Verus: each public function states what it returns in a contract, and
Verus proves the code against it.

## Layout

- `src/`: the verified library.
  - Search: `words`, `search`, `building`, `engine`, `fixed_heap`, `merging`, `io`,
    `query_law`, `load_law` hold the multi-word partial-string search: the tries, how they are built from
    haystacks and what they then hold, how a query walks them and what it finds, and how an
    engine is saved and loaded, and that a loaded engine answers as the saved one.
  - Filter expressions: `expr`, `expr_parse`, `expr_tree`, `expr_text`, `expr_reread`,
    `expr_relex` tokenize, parse and print `where` expressions.
  - Records and entities: `records`, `record_search`, `entity`, `var_size`, `biblio`, `agg_tree`,
    `sorting`, `common`, `years`, `links`, `metrics`, `coauthors`, `screens`, `pages`,
    `semantic_ids`, `identifiers`, `naming`, `type_names`, `scoring`.
  - Code generation: `codegen`, `srecs`, `meta_trait`, `stack_basis`, `farr`, `builder` write
    the Rust source that the build shapes to the dataset, each as text stated exactly.
  - The user ledger and the id lens over it: `ledger`, `lens`, `id_collections`.
- `tests/`: tests that run the compiled library.
- `app/`: the program around the library: argument handling, files, JSON, and the
  floating-point metrics.
