//! What a query of several words gives: each of its first three words filters the matches of
//! the words before it, so every id it gives is among the matches of each of those words.
use vstd::prelude::*;
use crate::search::{
    all_included, chained, first_matches, included, joined, last_exact_included, lemma_missing_from,
    l1_filtered_inner_result, l1_filtered_result, leaves_filtered_inner_result,
    leaves_filtered_result, missing_from, next_matches, other_included, root_filtered_inner_result,
    root_filtered_result, sides_of, words_searched, QueryResult, TrieLeaf, TrieNodeRoot,
};
use crate::engine::{one_word, query_answer, query_words, SearchEngine};
use crate::words::{query_bytes, word_set};

verus! {

proof fn lemma_included_has(ids: Seq<u32>, within: QueryResult, x: u32)
    requires
        included(ids, within).contains(x),
    ensures
        within.has(x),
{
    let f = |y: u32| within.has(y);
    let i = choose|i: int| 0 <= i < included(ids, within).len() && included(ids, within)[i] == x;
    ids.lemma_filter_pred(f, i);
}

proof fn lemma_last_exact_included_has(m: Seq<TrieLeaf>, n: int, within: QueryResult, x: u32)
    requires
        last_exact_included(m, n, within).contains(x),
    ensures
        within.has(x),
    decreases m.len(),
{
    if m.len() > 0 {
        if m.last().suffix.len == n {
            lemma_included_has(m.last().ids@, within, x);
        } else {
            lemma_last_exact_included_has(m.drop_last(), n, within, x);
        }
    }
}

proof fn lemma_other_included_has(m: Seq<TrieLeaf>, n: int, within: QueryResult, x: u32)
    requires
        other_included(m, n, within).contains(x),
    ensures
        within.has(x),
    decreases m.len(),
{
    if m.len() > 0 {
        if m.last().suffix.len != n && included(m.last().ids@, within).to_set().contains(x) {
            lemma_included_has(m.last().ids@, within, x);
        } else {
            lemma_other_included_has(m.drop_last(), n, within, x);
        }
    }
}

proof fn lemma_all_included_has(m: Seq<TrieLeaf>, within: QueryResult, x: u32)
    requires
        all_included(m, within).contains(x),
    ensures
        within.has(x),
    decreases m.len(),
{
    if m.len() > 0 {
        if included(m.last().ids@, within).to_set().contains(x) {
            lemma_included_has(m.last().ids@, within, x);
        } else {
            lemma_all_included_has(m.drop_last(), within, x);
        }
    }
}

/// A query of a trie within earlier matches gives only ids among them.
proof fn lemma_root_filtered_has<const S: usize>(
    node: TrieNodeRoot<S>,
    ca: Seq<u8>,
    word: Seq<u8>,
    within: QueryResult,
    res: QueryResult,
    x: u32,
)
    requires
        root_filtered_result(node, ca, word, within, res),
        res.has(x),
    ensures
        within.has(x),
{
    if word.len() == 0 {
        lemma_included_has(crate::fixed_heap::real_values(node.out.arr@), within, x);
    } else {
        let n1 = node.children@[word[0] as int];
        let w1 = word.subrange(1, word.len() as int);
        assert(l1_filtered_result(n1, ca, w1, within, res));
        if w1.len() == 0 {
            lemma_included_has(crate::fixed_heap::real_values(n1.out.arr@), within, x);
        } else {
            let leaves = n1.children@[w1[0] as int].0@;
            let w2 = w1.subrange(1, w1.len() as int);
            assert(leaves_filtered_result(leaves, ca, w2, within, res));
            let (l, r) = choose|l: int, r: int|
                #![trigger sides_of(leaves, ca, w2, l, r)]
                sides_of(leaves, ca, w2, l, r) && res.perfect@ == last_exact_included(
                    leaves.subrange(l, r),
                    w2.len() as int,
                    within,
                ) && res.partial@.to_set() == other_included(leaves.subrange(l, r), w2.len() as int, within);
            if res.perfect@.contains(x) {
                lemma_last_exact_included_has(leaves.subrange(l, r), w2.len() as int, within, x);
            } else {
                assert(res.partial@.to_set().contains(x));
                lemma_other_included_has(leaves.subrange(l, r), w2.len() as int, within, x);
            }
        }
    }
}

/// An inner query of a trie within earlier matches gives only ids among them.
proof fn lemma_root_filtered_inner_has<const S: usize>(
    node: TrieNodeRoot<S>,
    ca: Seq<u8>,
    word: Seq<u8>,
    within: QueryResult,
    ins: Seq<u32>,
    x: u32,
)
    requires
        root_filtered_inner_result(node, ca, word, within, ins),
        ins.contains(x),
    ensures
        within.has(x),
{
    if word.len() == 0 {
        lemma_included_has(crate::fixed_heap::real_values(node.out.arr@), within, x);
    } else {
        let n1 = node.children@[word[0] as int];
        let w1 = word.subrange(1, word.len() as int);
        assert(l1_filtered_inner_result(n1, ca, w1, within, ins));
        if w1.len() == 0 {
            lemma_included_has(crate::fixed_heap::real_values(n1.out.arr@), within, x);
        } else {
            let leaves = n1.children@[w1[0] as int].0@;
            let w2 = w1.subrange(1, w1.len() as int);
            assert(leaves_filtered_inner_result(leaves, ca, w2, within, ins));
            let (l, r) = choose|l: int, r: int|
                #![trigger sides_of(leaves, ca, w2, l, r)]
                sides_of(leaves, ca, w2, l, r) && ins.to_set() == all_included(leaves.subrange(l, r), within);
            assert(ins.to_set().contains(x));
            lemma_all_included_has(leaves.subrange(l, r), within, x);
        }
    }
}

/// The matches of a later word are among those of the word before it.
proof fn lemma_next_within<const S: usize>(
    trie: crate::search::CustomTrie<S>,
    word: Seq<u8>,
    prev: QueryResult,
    m: QueryResult,
    x: u32,
)
    requires
        next_matches(trie, word, prev, m),
        m.has(x),
    ensures
        prev.has(x),
{
    let prefs = choose|prefs: QueryResult|
        #[trigger] root_filtered_result(trie.prefix_tree, trie.char_array@, word, prev, prefs) && m.wf()
            && m.perfect@ == prefs.perfect@ && if word.len() > 1 {
            exists|ins: Seq<u32>|
                #[trigger] root_filtered_inner_result(trie.inner_tree, trie.char_array@, word, prev, ins)
                    && m.partial@.to_set() == prefs.partial@.to_set().union(ins.to_set())
        } else {
            m.partial@ == prefs.partial@
        };
    if prefs.has(x) {
        lemma_root_filtered_has(trie.prefix_tree, trie.char_array@, word, prev, prefs, x);
    } else {
        assert(m.partial@.contains(x));
        assert(word.len() > 1);
        let ins = choose|ins: Seq<u32>|
            #[trigger] root_filtered_inner_result(trie.inner_tree, trie.char_array@, word, prev, ins)
                && m.partial@.to_set() == prefs.partial@.to_set().union(ins.to_set());
        assert(m.partial@.to_set().contains(x));
        assert(!prefs.partial@.to_set().contains(x));
        assert(ins.to_set().contains(x));
        lemma_root_filtered_inner_has(trie.inner_tree, trie.char_array@, word, prev, ins, x);
    }
}

/// A query of three or more words searches the first three of them, each within the matches
/// of the words before it: every id it gives is among the matches of the first word, of the
/// second within those, and of the third within those.
pub proof fn law_query_keeps_three_words<const S: usize>(e: SearchEngine<S>, q: Seq<char>, r: Seq<u32>)
    requires
        query_answer(e.tree, q, r),
        query_words(q).len() >= 3,
    ensures
        exists|ms: Seq<QueryResult>|
            #![trigger first_matches(e.tree, query_words(q)[0], ms[0])]
            ms.len() == 3 && first_matches(e.tree, query_words(q)[0], ms[0])
                && next_matches(e.tree, query_words(q)[1], ms[0], ms[1])
                && next_matches(e.tree, query_words(q)[2], ms[1], ms[2])
                && forall|x: u32| #[trigger] r.contains(x) ==> ms[0].has(x) && ms[1].has(x) && ms[2].has(x),
{
    let ws = query_words(q);
    assert(ws.len() == word_set(query_bytes(q)).1.len());
    assert(!one_word(q));
    let ms = choose|ms: Seq<QueryResult>|
        #[trigger] chained(e.tree, ws, ms) && ms.len() == words_searched(ws.len() as int) && r == joined(
            ms.last(),
        ).subrange(0, r.len() as int) && r.len() <= joined(ms.last()).len() && (r.len() == S || r.len()
            == joined(ms.last()).len());
    assert(ms.len() == 3);
    assert(next_matches(e.tree, ws[1], ms[0], ms[1]));
    assert(next_matches(e.tree, ws[2], ms[1], ms[2]));
    assert forall|x: u32| #[trigger] r.contains(x) implies ms[0].has(x) && ms[1].has(x) && ms[2].has(x) by {
        let m = ms[2];
        assert(ms.last() == m);
        let i = choose|i: int| 0 <= i < r.len() && r[i] == x;
        assert(joined(m).subrange(0, r.len() as int)[i] == joined(m)[i]);
        lemma_missing_from(m.perfect@, m.partial@);
        let p = m.perfect@;
        if i < p.len() {
            assert(p[i] == x);
            assert(p.contains(x));
        } else {
            assert(missing_from(p, m.partial@)[i - p.len()] == x);
            assert(missing_from(p, m.partial@).contains(x));
        }
        assert(m.has(x));
        lemma_next_within(e.tree, ws[2], ms[1], m, x);
        lemma_next_within(e.tree, ws[1], ms[0], ms[1], x);
    }
    assert(first_matches(e.tree, ws[0], ms[0]));
}

} // verus!
