//! An engine is answered by its plain values alone: one loaded from the bytes another was
//! saved to answers every query as that one does.
use vstd::prelude::*;
use crate::search::{
    all_included, all_leaf_ids, chained, first_matches, joined, l1_filtered_inner_result,
    l1_filtered_result, l1_inner_result, l1_query_result, last_exact_ids, last_exact_included,
    leaves_filtered_inner_result, leaves_filtered_result, leaves_inner_result, leaves_query_result,
    letters, longer_ids, next_matches, other_included, root_filtered_inner_result,
    root_filtered_result, root_inner_result, root_query_result, sides_of, word_matches,
    words_searched, QueryResult, TrieLeaf, TrieNodeRoot,
};
use crate::io::{
    dec_engine, enc_engine, encodable, engine_view, l1_view, law_save_then_load, leaf_view,
    leaves_view, root_view,
};
use crate::engine::{first_word, one_word, padded_letters, query_answer, query_words, SearchEngine};
use crate::words::{lemma_scan_wf, query_bytes, scan, word_set};

verus! {

/// Two lists of leaves with the same plain values.
pub open spec fn same_leaves(a: Seq<TrieLeaf>, b: Seq<TrieLeaf>) -> bool {
    a.map_values(|l: TrieLeaf| leaf_view(l)) == b.map_values(|l: TrieLeaf| leaf_view(l))
}

proof fn lemma_same_leaves_parts(a: Seq<TrieLeaf>, b: Seq<TrieLeaf>)
    requires
        same_leaves(a, b),
    ensures
        a.len() == b.len(),
        forall|i: int| 0 <= i < a.len() ==> (#[trigger] a[i]).suffix == b[i].suffix && a[i].ids@ == b[i].ids@,
        forall|l: int, r: int| 0 <= l <= r <= a.len() ==> same_leaves(#[trigger] a.subrange(l, r), b.subrange(l, r)),
{
    let va = a.map_values(|l: TrieLeaf| leaf_view(l));
    let vb = b.map_values(|l: TrieLeaf| leaf_view(l));
    assert(va.len() == a.len() && vb.len() == b.len());
    assert forall|i: int| 0 <= i < a.len() implies (#[trigger] a[i]).suffix == b[i].suffix && a[i].ids@ == b[i].ids@ by {
        assert(va[i] == vb[i]);
    }
    assert forall|l: int, r: int| 0 <= l <= r <= a.len() implies same_leaves(#[trigger] a.subrange(l, r), b.subrange(l, r)) by {
        let sa = a.subrange(l, r).map_values(|x: TrieLeaf| leaf_view(x));
        let sb = b.subrange(l, r).map_values(|x: TrieLeaf| leaf_view(x));
        assert(sa =~= sb) by {
            assert forall|k: int| 0 <= k < r - l implies #[trigger] sa[k] == sb[k] by {
                assert(va[l + k] == vb[l + k]);
            }
        }
    }
}

proof fn lemma_same_leaves_ids(a: Seq<TrieLeaf>, b: Seq<TrieLeaf>, n: int, within: QueryResult)
    requires
        same_leaves(a, b),
    ensures
        last_exact_ids(a, n) == last_exact_ids(b, n),
        longer_ids(a, n) == longer_ids(b, n),
        all_leaf_ids(a) == all_leaf_ids(b),
        last_exact_included(a, n, within) == last_exact_included(b, n, within),
        other_included(a, n, within) == other_included(b, n, within),
        all_included(a, within) == all_included(b, within),
    decreases a.len(),
{
    lemma_same_leaves_parts(a, b);
    if a.len() > 0 {
        let k = a.len() - 1;
        assert(a.drop_last() == a.subrange(0, k));
        assert(b.drop_last() == b.subrange(0, k));
        lemma_same_leaves_ids(a.drop_last(), b.drop_last(), n, within);
        assert(a.last() == a[k] && b.last() == b[k]);
    }
}

/// Leaves with the same plain values answer every query alike.
proof fn lemma_same_leaves_answer(a: Seq<TrieLeaf>, b: Seq<TrieLeaf>, ca: Seq<u8>, word: Seq<u8>, within: QueryResult)
    requires
        same_leaves(a, b),
    ensures
        forall|res: QueryResult| leaves_query_result(a, ca, word, res) == leaves_query_result(b, ca, word, res),
        forall|res: Seq<u32>| leaves_inner_result(a, ca, word, res) == leaves_inner_result(b, ca, word, res),
        forall|res: QueryResult| leaves_filtered_result(a, ca, word, within, res) == leaves_filtered_result(b, ca, word, within, res),
        forall|res: Seq<u32>| leaves_filtered_inner_result(a, ca, word, within, res) == leaves_filtered_inner_result(b, ca, word, within, res),
{
    lemma_same_leaves_parts(a, b);
    assert forall|l: int, r: int| sides_of(a, ca, word, l, r) == sides_of(b, ca, word, l, r) by {
        if 0 < l <= a.len() {
            assert(a[l - 1].suffix == b[l - 1].suffix);
        }
        if 0 <= l < a.len() {
            assert(a[l].suffix == b[l].suffix);
        }
        if 0 < r <= a.len() {
            assert(a[r - 1].suffix == b[r - 1].suffix);
        }
        if 0 <= r < a.len() {
            assert(a[r].suffix == b[r].suffix);
        }
    }
    assert forall|l: int, r: int| 0 <= l <= r <= a.len() implies {
        &&& last_exact_ids(a.subrange(l, r), word.len() as int) == last_exact_ids(b.subrange(l, r), word.len() as int)
        &&& longer_ids(a.subrange(l, r), word.len() as int) == longer_ids(b.subrange(l, r), word.len() as int)
        &&& all_leaf_ids(a.subrange(l, r)) == all_leaf_ids(b.subrange(l, r))
        &&& last_exact_included(a.subrange(l, r), word.len() as int, within) == last_exact_included(b.subrange(l, r), word.len() as int, within)
        &&& other_included(a.subrange(l, r), word.len() as int, within) == other_included(b.subrange(l, r), word.len() as int, within)
        &&& #[trigger] all_included(a.subrange(l, r), within) == all_included(b.subrange(l, r), within)
    } by {
        assert(same_leaves(a.subrange(l, r), b.subrange(l, r)));
        lemma_same_leaves_ids(a.subrange(l, r), b.subrange(l, r), word.len() as int, within);
    }
    assert forall|res: QueryResult| leaves_query_result(a, ca, word, res) == leaves_query_result(b, ca, word, res) by {
        if leaves_query_result(a, ca, word, res) {
            let (l, r) = choose|l: int, r: int| #![trigger sides_of(a, ca, word, l, r)] sides_of(a, ca, word, l, r) && res.perfect@ == last_exact_ids(a.subrange(l, r), word.len() as int) && res.partial@.to_set() == longer_ids(a.subrange(l, r), word.len() as int);
            assert(all_included(a.subrange(l, r), within) == all_included(b.subrange(l, r), within));
            assert(sides_of(b, ca, word, l, r));
        }
        if leaves_query_result(b, ca, word, res) {
            let (l, r) = choose|l: int, r: int| #![trigger sides_of(b, ca, word, l, r)] sides_of(b, ca, word, l, r) && res.perfect@ == last_exact_ids(b.subrange(l, r), word.len() as int) && res.partial@.to_set() == longer_ids(b.subrange(l, r), word.len() as int);
            assert(all_included(a.subrange(l, r), within) == all_included(b.subrange(l, r), within));
            assert(sides_of(a, ca, word, l, r));
        }
    }
    assert forall|res: Seq<u32>| leaves_inner_result(a, ca, word, res) == leaves_inner_result(b, ca, word, res) by {
        if leaves_inner_result(a, ca, word, res) {
            let (l, r) = choose|l: int, r: int| #![trigger sides_of(a, ca, word, l, r)] sides_of(a, ca, word, l, r) && res.to_set() == all_leaf_ids(a.subrange(l, r));
            assert(all_included(a.subrange(l, r), within) == all_included(b.subrange(l, r), within));
            assert(sides_of(b, ca, word, l, r));
        }
        if leaves_inner_result(b, ca, word, res) {
            let (l, r) = choose|l: int, r: int| #![trigger sides_of(b, ca, word, l, r)] sides_of(b, ca, word, l, r) && res.to_set() == all_leaf_ids(b.subrange(l, r));
            assert(all_included(a.subrange(l, r), within) == all_included(b.subrange(l, r), within));
            assert(sides_of(a, ca, word, l, r));
        }
    }
    assert forall|res: QueryResult| leaves_filtered_result(a, ca, word, within, res) == leaves_filtered_result(b, ca, word, within, res) by {
        if leaves_filtered_result(a, ca, word, within, res) {
            let (l, r) = choose|l: int, r: int| #![trigger sides_of(a, ca, word, l, r)] sides_of(a, ca, word, l, r) && res.perfect@ == last_exact_included(a.subrange(l, r), word.len() as int, within) && res.partial@.to_set() == other_included(a.subrange(l, r), word.len() as int, within);
            assert(all_included(a.subrange(l, r), within) == all_included(b.subrange(l, r), within));
            assert(sides_of(b, ca, word, l, r));
        }
        if leaves_filtered_result(b, ca, word, within, res) {
            let (l, r) = choose|l: int, r: int| #![trigger sides_of(b, ca, word, l, r)] sides_of(b, ca, word, l, r) && res.perfect@ == last_exact_included(b.subrange(l, r), word.len() as int, within) && res.partial@.to_set() == other_included(b.subrange(l, r), word.len() as int, within);
            assert(all_included(a.subrange(l, r), within) == all_included(b.subrange(l, r), within));
            assert(sides_of(a, ca, word, l, r));
        }
    }
    assert forall|res: Seq<u32>| leaves_filtered_inner_result(a, ca, word, within, res) == leaves_filtered_inner_result(b, ca, word, within, res) by {
        if leaves_filtered_inner_result(a, ca, word, within, res) {
            let (l, r) = choose|l: int, r: int| #![trigger sides_of(a, ca, word, l, r)] sides_of(a, ca, word, l, r) && res.to_set() == all_included(a.subrange(l, r), within);
            assert(all_included(a.subrange(l, r), within) == all_included(b.subrange(l, r), within));
            assert(sides_of(b, ca, word, l, r));
        }
        if leaves_filtered_inner_result(b, ca, word, within, res) {
            let (l, r) = choose|l: int, r: int| #![trigger sides_of(b, ca, word, l, r)] sides_of(b, ca, word, l, r) && res.to_set() == all_included(b.subrange(l, r), within);
            assert(all_included(a.subrange(l, r), within) == all_included(b.subrange(l, r), within));
            assert(sides_of(a, ca, word, l, r));
        }
    }
}

/// Tries with the same plain values answer every query of a word of letters alike.
proof fn lemma_same_root_answer<const S: usize>(a: TrieNodeRoot<S>, b: TrieNodeRoot<S>, ca: Seq<u8>, word: Seq<u8>)
    requires
        root_view(a) == root_view(b),
        a.wf(ca),
        letters(word),
    ensures
        forall|res: QueryResult| root_query_result(a, ca, word, res) == root_query_result(b, ca, word, res),
        forall|res: Seq<u32>| root_inner_result(a, ca, word, res) == root_inner_result(b, ca, word, res),
        forall|within: QueryResult, res: QueryResult|
            root_filtered_result(a, ca, word, within, res) == root_filtered_result(b, ca, word, within, res),
        forall|within: QueryResult, res: Seq<u32>|
            root_filtered_inner_result(a, ca, word, within, res) == root_filtered_inner_result(b, ca, word, within, res),
{
    if word.len() > 0 {
        let c = word[0] as int;
        assert(word[0] < 26);
        let va = root_view(a).1;
        let vb = root_view(b).1;
        assert(va == vb);
        assert(va.len() == a.children@.len() && vb.len() == b.children@.len());
        assert(va[c] == l1_view(a.children@[c]));
        assert(vb[c] == l1_view(b.children@[c]));
        let na = a.children@[c];
        let nb = b.children@[c];
        assert(l1_view(na) == l1_view(nb));
        assert(na.wf(ca));
        let w1 = word.subrange(1, word.len() as int);
        if w1.len() > 0 {
            let d = w1[0] as int;
            assert(w1[0] == word[1]);
            assert(word[1] < 26);
            let la = l1_view(na).1;
            let lb = l1_view(nb).1;
            assert(la == lb);
            assert(la.len() == na.children@.len() && lb.len() == nb.children@.len());
            assert(la[d] == leaves_view(na.children@[d]));
            assert(lb[d] == leaves_view(nb.children@[d]));
            let xs = na.children@[d].0@;
            let ys = nb.children@[d].0@;
            assert(same_leaves(xs, ys)) by {
                let lx = leaves_view(na.children@[d]);
                let ly = leaves_view(nb.children@[d]);
                assert(lx == ly);
                let mx = xs.map_values(|t: TrieLeaf| leaf_view(t));
                let my = ys.map_values(|t: TrieLeaf| leaf_view(t));
                assert(lx.len() == xs.len() && ly.len() == ys.len());
                assert(mx =~= my) by {
                    assert forall|k: int| 0 <= k < mx.len() implies #[trigger] mx[k] == my[k] by {
                        assert(lx[k] == leaf_view(xs[k]));
                        assert(ly[k] == leaf_view(ys[k]));
                    }
                }
            }
            let w2 = w1.subrange(1, w1.len() as int);
            let w0 = choose|x: QueryResult| #[trigger] x.wf();
            lemma_same_leaves_answer(na.children@[d].0@, nb.children@[d].0@, ca, w2, w0);
            assert forall|res: QueryResult| l1_query_result(na, ca, w1, res) == l1_query_result(nb, ca, w1, res) by {}
            assert forall|res: Seq<u32>| l1_inner_result(na, ca, w1, res) == l1_inner_result(nb, ca, w1, res) by {}
            assert forall|within: QueryResult, res: QueryResult| l1_filtered_result(na, ca, w1, within, res) == l1_filtered_result(nb, ca, w1, within, res) by {
                lemma_same_leaves_answer(na.children@[d].0@, nb.children@[d].0@, ca, w2, within);
                assert(leaves_filtered_result(na.children@[d].0@, ca, w2, within, res) == leaves_filtered_result(nb.children@[d].0@, ca, w2, within, res));
            }
            assert forall|within: QueryResult, res: Seq<u32>| l1_filtered_inner_result(na, ca, w1, within, res) == l1_filtered_inner_result(nb, ca, w1, within, res) by {
                lemma_same_leaves_answer(na.children@[d].0@, nb.children@[d].0@, ca, w2, within);
                assert(leaves_filtered_inner_result(na.children@[d].0@, ca, w2, within, res) == leaves_filtered_inner_result(nb.children@[d].0@, ca, w2, within, res));
            }
        }
    }
}

/// The words of every query are made of letters.
pub(crate) proof fn lemma_query_letters(q: Seq<char>)
    ensures
        letters(first_word(q)),
        forall|j: int| 0 <= j < query_words(q).len() ==> letters(#[trigger] query_words(q)[j]),
{
    let bytes = query_bytes(q);
    lemma_scan_wf(bytes);
    let p = padded_letters(q);
    assert(word_set(bytes).0 == scan(bytes).0);
    assert forall|k: int| 0 <= k < p.len() implies #[trigger] p[k] < 26 by {
        let chars = word_set(bytes).0;
        if k < chars.len() {
            assert(p[k] == chars[k]);
        }
    }
    assert forall|j: int| 0 <= j < query_words(q).len() implies letters(#[trigger] query_words(q)[j]) by {
        let w = query_words(q)[j];
        assert forall|k: int| 0 <= k < w.len() implies #[trigger] w[k] < 26 by {
            let breaks = word_set(bytes).1;
            let st: int = if j == 0 { 0 } else { breaks[j - 1] as int };
            assert(w[k] == p[st + k]);
        }
    }
    let fw = first_word(q);
    assert forall|k: int| 0 <= k < fw.len() implies #[trigger] fw[k] < 26 by {
        assert(fw[k] == p[k]);
    }
}

/// An engine with the plain values of another, as `try_load` gives back from the bytes that
/// `save` wrote, answers every query exactly as that one does.
pub proof fn law_loaded_engine_answers_alike<const S: usize>(e: SearchEngine<S>, l: SearchEngine<S>, q: Seq<char>, r: Seq<u32>)
    requires
        e.wf(),
        engine_view(l) == engine_view(e),
    ensures
        query_answer(l.tree, q, r) == query_answer(e.tree, q, r),
{
    let ca = e.tree.char_array@;
    assert(l.tree.char_array@ == ca);
    lemma_query_letters(q);
    let fw = first_word(q);
    lemma_same_root_answer(e.tree.prefix_tree, l.tree.prefix_tree, ca, fw);
    lemma_same_root_answer(e.tree.inner_tree, l.tree.inner_tree, ca, fw);
    assert forall|m: QueryResult| #[trigger] word_matches(e.tree, fw, S, m) == word_matches(l.tree, fw, S, m) by {}
    let ws = query_words(q);
    assert forall|k: int| #![trigger ws[k]] 0 <= k < ws.len() implies {
        &&& (forall|m: QueryResult| #[trigger] first_matches(e.tree, ws[k], m) == first_matches(l.tree, ws[k], m))
        &&& (forall|prev: QueryResult, m: QueryResult| #[trigger] next_matches(e.tree, ws[k], prev, m) == next_matches(l.tree, ws[k], prev, m))
    } by {
        lemma_same_root_answer(e.tree.prefix_tree, l.tree.prefix_tree, ca, ws[k]);
        lemma_same_root_answer(e.tree.inner_tree, l.tree.inner_tree, ca, ws[k]);
    }
    assert forall|ms: Seq<QueryResult>| 1 <= ms.len() <= ws.len() implies #[trigger] chained(e.tree, ws, ms) == chained(l.tree, ws, ms) by {
        assert(first_matches(e.tree, ws[0], ms[0]) == first_matches(l.tree, ws[0], ms[0]));
        assert forall|k: int| 1 <= k < ms.len() implies next_matches(e.tree, ws[k], ms[k - 1], #[trigger] ms[k]) == next_matches(l.tree, ws[k], ms[k - 1], ms[k]) by {}
    }
    if one_word(q) {
        if query_answer(e.tree, q, r) {
            let m = choose|m: QueryResult| #[trigger] word_matches(e.tree, fw, S, m) && r == joined(m).subrange(0, r.len() as int) && r.len() <= joined(m).len() && (r.len() == S || r.len() == joined(m).len());
            assert(word_matches(l.tree, fw, S, m));
        }
        if query_answer(l.tree, q, r) {
            let m = choose|m: QueryResult| #[trigger] word_matches(l.tree, fw, S, m) && r == joined(m).subrange(0, r.len() as int) && r.len() <= joined(m).len() && (r.len() == S || r.len() == joined(m).len());
            assert(word_matches(e.tree, fw, S, m));
        }
    } else {
        assert(ws.len() >= 2);
        if query_answer(e.tree, q, r) {
            let ms = choose|ms: Seq<QueryResult>| #[trigger] chained(e.tree, ws, ms) && ms.len() == words_searched(ws.len() as int) && r == joined(ms.last()).subrange(0, r.len() as int) && r.len() <= joined(ms.last()).len() && (r.len() == S || r.len() == joined(ms.last()).len());
            assert(chained(l.tree, ws, ms));
        }
        if query_answer(l.tree, q, r) {
            let ms = choose|ms: Seq<QueryResult>| #[trigger] chained(l.tree, ws, ms) && ms.len() == words_searched(ws.len() as int) && r == joined(ms.last()).subrange(0, r.len() as int) && r.len() <= joined(ms.last()).len() && (r.len() == S || r.len() == joined(ms.last()).len());
            assert(chained(e.tree, ws, ms));
        }
    }
}

/// What `try_load` gives back for the bytes that `save` wrote of an engine, followed by any
/// bytes, answers every query exactly as the saved engine does.
pub proof fn law_save_load_answers_alike<const S: usize>(e: SearchEngine<S>, l: SearchEngine<S>, rest: Seq<u8>, q: Seq<char>, r: Seq<u32>)
    requires
        e.wf(),
        encodable(engine_view(e), S as nat),
        dec_engine(enc_engine(engine_view(e), S as nat) + rest, S as nat) == Some(engine_view(l)),
    ensures
        query_answer(l.tree, q, r) == query_answer(e.tree, q, r),
{
    law_save_then_load(e, rest);
    law_loaded_engine_answers_alike(e, l, q, r);
}

} // verus!
