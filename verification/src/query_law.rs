//! What a one-word query of an engine built from haystacks gives: the haystacks with a word
//! that starts with the query word or holds it after its first letter.
use vstd::prelude::*;
use crate::search::{
    all_included, first_matches, included, last_exact_included, leaves_filtered_inner_result,
    leaves_filtered_result, next_matches, other_included, root_filtered_inner_result,
    root_filtered_result,
    all_leaf_ids, fewer_than, joined, last_exact_ids, lemma_missing_from, leaves_inner_result,
    leaves_query_result, leaves_wf, letters, longer_ids, missing_from, root_inner_result,
    root_query_result, sides_of, trunc_less, word_matches, QueryResult, TrieLeaf,
};
use crate::building::{
    frag_tails_under, inner_frags, leaf_pairs, leaves_in_order, prefix_frags, root_holds,
};
use crate::engine::{first_word, indexed_haystacks, one_word, query_answer, query_words, SearchEngine};
use crate::words::{query_bytes, word_set};
use crate::sorting::lex_lt;

verus! {

/// `a` and `u` agree on their common length.
pub open spec fn agrees(a: Seq<u8>, u: Seq<u8>) -> bool {
    forall|k: int| 0 <= k < a.len() && k < u.len() ==> #[trigger] a[k] == u[k]
}

/// `a` is a proper prefix of `u`.
pub open spec fn proper_prefix(a: Seq<u8>, u: Seq<u8>) -> bool {
    a.len() < u.len() && agrees(a, u)
}

/// `w` starts with `u`.
pub open spec fn starts_with(w: Seq<u8>, u: Seq<u8>) -> bool {
    u.len() <= w.len() && w.subrange(0, u.len() as int) == u
}

proof fn lemma_agrees_tail(a: Seq<u8>, u: Seq<u8>)
    requires
        a.len() > 0,
        u.len() > 0,
    ensures
        agrees(a, u) <==> (a[0] == u[0] && agrees(a.drop_first(), u.drop_first())),
{
    if a[0] == u[0] && agrees(a.drop_first(), u.drop_first()) {
        assert forall|k: int| 0 <= k < a.len() && k < u.len() implies #[trigger] a[k] == u[k] by {
            if k > 0 {
                assert(a.drop_first()[k - 1] == u.drop_first()[k - 1]);
            }
        }
    }
    if agrees(a, u) {
        assert(a[0] == u[0]);
        assert forall|k: int| 0 <= k < a.drop_first().len() && k < u.drop_first().len() implies #[trigger] a.drop_first()[k]
            == u.drop_first()[k] by {
            assert(a[k + 1] == u[k + 1]);
        }
    }
}

/// Agreeing words compare by the breaker; a word between the two breakers agrees.
proof fn lemma_trunc_agrees(a: Seq<u8>, u: Seq<u8>)
    ensures
        agrees(a, u) ==> trunc_less(a, u, false) == false && trunc_less(a, u, true) == true,
        !trunc_less(a, u, false) && trunc_less(a, u, true) ==> agrees(a, u),
    decreases a.len(),
{
    if a.len() > 0 && u.len() > 0 {
        lemma_agrees_tail(a, u);
        lemma_trunc_agrees(a.drop_first(), u.drop_first());
    }
}

/// Over words in lexicographic order, being below `u` at a difference holds of a prefix of
/// them, as long as none of them is a proper prefix of `u`.
proof fn lemma_under_monotone(x: Seq<u8>, y: Seq<u8>, u: Seq<u8>)
    requires
        lex_lt(x, y) || x == y,
        !proper_prefix(x, u),
        trunc_less(y, u, false),
    ensures
        trunc_less(x, u, false),
    decreases x.len(),
{
    if x != y {
        if x.len() == 0 {
            assert(proper_prefix(x, u) || u.len() == 0);
        } else if u.len() > 0 && y.len() > 0 && x[0] == y[0] && y[0] == u[0] {
            lemma_agrees_tail(x, u);
            lemma_under_monotone(x.drop_first(), y.drop_first(), u.drop_first());
        }
    }
}

/// Over words in lexicographic order, being below `u` or agreeing with it holds of a prefix
/// of them.
proof fn lemma_not_over_monotone(x: Seq<u8>, y: Seq<u8>, u: Seq<u8>)
    requires
        lex_lt(x, y) || x == y,
        trunc_less(y, u, true),
    ensures
        trunc_less(x, u, true),
    decreases x.len(),
{
    if x != y {
        if x.len() > 0 && u.len() > 0 && y.len() > 0 && x[0] == y[0] && y[0] == u[0] {
            lemma_not_over_monotone(x.drop_first(), y.drop_first(), u.drop_first());
        }
    }
}

/// No leaf spells a proper prefix of `u`.
pub open spec fn no_short_leaf(leaves: Seq<TrieLeaf>, char_arr: Seq<u8>, u: Seq<u8>) -> bool {
    forall|i: int| 0 <= i < leaves.len() ==> !proper_prefix(#[trigger] leaves[i].suffix.view_in(char_arr), u)
}

/// Over leaves in the order of their suffixes, none of which spells a proper prefix of `u`,
/// the stretch of the binary search is where the suffixes agree with `u`.
proof fn lemma_stretch_agrees(leaves: Seq<TrieLeaf>, ca: Seq<u8>, u: Seq<u8>, l: int, r: int)
    requires
        sides_of(leaves, ca, u, l, r),
        leaves_in_order(leaves, ca),
        no_short_leaf(leaves, ca, u),
    ensures
        forall|i: int| l <= i < r ==> agrees(#[trigger] leaves[i].suffix.view_in(ca), u),
{
    assert forall|i: int| l <= i < r implies agrees(#[trigger] leaves[i].suffix.view_in(ca), u) by {
        let si = leaves[i].suffix.view_in(ca);
        let sl = leaves[l].suffix.view_in(ca);
        let sr = leaves[r - 1].suffix.view_in(ca);
        if trunc_less(si, u, false) {
            if l < i {
                assert(lex_lt(sl, si) || sl == si);
            }
            assert(!proper_prefix(sl, u));
            lemma_under_monotone(sl, si, u);
        }
        if i < r - 1 {
            assert(lex_lt(si, sr) || si == sr);
        }
        lemma_not_over_monotone(si, sr, u);
        lemma_trunc_agrees(si, u);
    }
}

proof fn lemma_last_exact_member(m: Seq<TrieLeaf>, n: int, x: u32)
    requires
        last_exact_ids(m, n).contains(x),
    ensures
        exists|k: int| 0 <= k < m.len() && (#[trigger] m[k]).suffix.len == n && m[k].ids@.contains(x),
    decreases m.len(),
{
    if m.len() > 0 {
        if m.last().suffix.len == n {
            assert(m[m.len() - 1] == m.last());
        } else {
            lemma_last_exact_member(m.drop_last(), n, x);
            let k = choose|k: int| 0 <= k < m.drop_last().len() && (#[trigger] m.drop_last()[k]).suffix.len == n
                && m.drop_last()[k].ids@.contains(x);
            assert(m[k] == m.drop_last()[k]);
        }
    }
}

proof fn lemma_longer_member(m: Seq<TrieLeaf>, n: int, x: u32)
    requires
        longer_ids(m, n).contains(x),
    ensures
        exists|k: int| 0 <= k < m.len() && (#[trigger] m[k]).suffix.len > n && m[k].ids@.contains(x),
    decreases m.len(),
{
    if m.len() > 0 {
        if m.last().suffix.len > n && m.last().ids@.to_set().contains(x) {
            assert(m[m.len() - 1] == m.last());
        } else {
            lemma_longer_member(m.drop_last(), n, x);
            let k = choose|k: int| 0 <= k < m.drop_last().len() && (#[trigger] m.drop_last()[k]).suffix.len > n
                && m.drop_last()[k].ids@.contains(x);
            assert(m[k] == m.drop_last()[k]);
        }
    }
}

proof fn lemma_all_leaf_member(m: Seq<TrieLeaf>, x: u32)
    requires
        all_leaf_ids(m).contains(x),
    ensures
        exists|k: int| 0 <= k < m.len() && (#[trigger] m[k]).ids@.contains(x),
    decreases m.len(),
{
    if m.len() > 0 {
        if m.last().ids@.to_set().contains(x) {
            assert(m[m.len() - 1] == m.last());
        } else {
            lemma_all_leaf_member(m.drop_last(), x);
            let k = choose|k: int| 0 <= k < m.drop_last().len() && (#[trigger] m.drop_last()[k]).ids@.contains(x);
            assert(m[k] == m.drop_last()[k]);
        }
    }
}

/// Every id a query of ordered leaves gives, where no leaf spells a proper prefix of the
/// word, comes with a suffix that starts with the word.
proof fn lemma_leaves_query_hits(leaves: Seq<TrieLeaf>, ca: Seq<u8>, u: Seq<u8>, pre: QueryResult, x: u32)
    requires
        leaves_query_result(leaves, ca, u, pre),
        leaves_wf(leaves, ca),
        leaves_in_order(leaves, ca),
        no_short_leaf(leaves, ca, u),
        pre.perfect@.contains(x) || pre.partial@.contains(x),
    ensures
        exists|t: Seq<u8>| #[trigger] leaf_pairs(leaves, ca).contains((t, x)) && starts_with(t, u),
{
    let (l, r) = choose|l: int, r: int|
        #![trigger sides_of(leaves, ca, u, l, r)]
        sides_of(leaves, ca, u, l, r) && pre.perfect@ == last_exact_ids(leaves.subrange(l, r), u.len() as int)
            && pre.partial@.to_set() == longer_ids(leaves.subrange(l, r), u.len() as int);
    lemma_stretch_agrees(leaves, ca, u, l, r);
    let m = leaves.subrange(l, r);
    let k = if pre.perfect@.contains(x) {
        lemma_last_exact_member(m, u.len() as int, x);
        choose|k: int| 0 <= k < m.len() && (#[trigger] m[k]).suffix.len == u.len() && m[k].ids@.contains(x)
    } else {
        assert(pre.partial@.to_set().contains(x));
        lemma_longer_member(m, u.len() as int, x);
        choose|k: int| 0 <= k < m.len() && (#[trigger] m[k]).suffix.len > u.len() && m[k].ids@.contains(x)
    };
    let i = l + k;
    assert(m[k] == leaves[i]);
    assert(leaves[i].wf(ca));
    let t = leaves[i].suffix.view_in(ca);
    assert(agrees(t, u));
    assert(t.len() == leaves[i].suffix.len);
    assert(t.len() >= u.len());
    assert(t.subrange(0, u.len() as int) =~= u);
    assert(leaf_pairs(leaves, ca).contains((t, x)));
}

/// Every id an inner query of ordered leaves gives, where no leaf spells a proper prefix of
/// the word, comes with a suffix that starts with the word.
proof fn lemma_leaves_inner_hits(leaves: Seq<TrieLeaf>, ca: Seq<u8>, u: Seq<u8>, ins: Seq<u32>, x: u32)
    requires
        leaves_inner_result(leaves, ca, u, ins),
        leaves_in_order(leaves, ca),
        no_short_leaf(leaves, ca, u),
        ins.contains(x),
    ensures
        exists|t: Seq<u8>| #[trigger] leaf_pairs(leaves, ca).contains((t, x)) && starts_with(t, u),
{
    let (l, r) = choose|l: int, r: int|
        #![trigger sides_of(leaves, ca, u, l, r)]
        sides_of(leaves, ca, u, l, r) && ins.to_set() == all_leaf_ids(leaves.subrange(l, r));
    lemma_stretch_agrees(leaves, ca, u, l, r);
    let m = leaves.subrange(l, r);
    assert(ins.to_set().contains(x));
    lemma_all_leaf_member(m, x);
    let k = choose|k: int| 0 <= k < m.len() && (#[trigger] m[k]).ids@.contains(x);
    let i = l + k;
    assert(m[k] == leaves[i]);
    let t = leaves[i].suffix.view_in(ca);
    assert(agrees(t, u));
    assert(!proper_prefix(t, u));
    assert(t.subrange(0, u.len() as int) =~= u);
    assert(leaf_pairs(leaves, ca).contains((t, x)));
}

/// The haystacks with a word that starts with `w`, or that holds `w` from one of its letters
/// after the first that leave at least two more.
pub open spec fn word_hits(ws: Seq<(Seq<u8>, usize)>, w: Seq<u8>) -> Set<u32> {
    Set::new(
        |x: u32|
            exists|j: int, si: int|
                0 <= j < ws.len() && ws[j].1 as u32 == x && (si == 0 || (1 <= si && si + 1
                    < ws[j].0.len())) && si <= ws[j].0.len() && #[trigger] starts_with(
                    ws[j].0.subrange(si, ws[j].0.len() as int),
                    w,
                ),
    )
}

/// A fragment that starts with the first two letters of `w` and goes on with the rest of it
/// starts with `w`.
proof fn lemma_frag_starts(f: Seq<u8>, w: Seq<u8>, t: Seq<u8>)
    requires
        w.len() >= 2,
        f.len() >= 2,
        f[0] == w[0],
        f[1] == w[1],
        t == f.subrange(2, f.len() as int),
        starts_with(t, w.subrange(2, w.len() as int)),
    ensures
        starts_with(f, w),
{
    let u = w.subrange(2, w.len() as int);
    assert forall|k: int| 0 <= k < w.len() implies #[trigger] f.subrange(0, w.len() as int)[k] == w[k] by {
        if k >= 2 {
            assert(t.subrange(0, u.len() as int)[k - 2] == u[k - 2]);
        }
    }
    assert(f.subrange(0, w.len() as int) =~= w);
}

proof fn lemma_prefix_tail_hit(ws: Seq<(Seq<u8>, usize)>, w: Seq<u8>, t: Seq<u8>, x: u32)
    requires
        w.len() >= 2,
        frag_tails_under(prefix_frags(ws), w[0] as int, w[1] as int).contains((t, x)),
        starts_with(t, w.subrange(2, w.len() as int)),
    ensures
        word_hits(ws, w).contains(x),
{
    let fs = prefix_frags(ws);
    let all = Set::new(|j: int| 0 <= j < ws.len());
    let f = choose|f: Seq<u8>|
        #[trigger] fs.contains((f, x)) && f.len() >= 2 && f[0] == w[0] as int && f[1] == w[1] as int && t
            == f.subrange(2, f.len() as int);
    lemma_frag_starts(f, w, t);
    let j = choose|j: int|
        #[trigger] all.contains(j) && 0 <= j < ws.len() && ws[j].0.len() > 0 && (f, x) == (
            ws[j].0,
            ws[j].1 as u32,
        );
    assert(ws[j].0.subrange(0, ws[j].0.len() as int) =~= f);
    assert(starts_with(ws[j].0.subrange(0, ws[j].0.len() as int), w));
}

proof fn lemma_inner_tail_hit(ws: Seq<(Seq<u8>, usize)>, w: Seq<u8>, t: Seq<u8>, x: u32)
    requires
        w.len() >= 2,
        frag_tails_under(inner_frags(ws), w[0] as int, w[1] as int).contains((t, x)),
        starts_with(t, w.subrange(2, w.len() as int)),
    ensures
        word_hits(ws, w).contains(x),
{
    let fs = inner_frags(ws);
    let all = Set::new(|j: int| 0 <= j < ws.len());
    let f = choose|f: Seq<u8>|
        #[trigger] fs.contains((f, x)) && f.len() >= 2 && f[0] == w[0] as int && f[1] == w[1] as int && t
            == f.subrange(2, f.len() as int);
    lemma_frag_starts(f, w, t);
    let (j, si) = choose|j: int, si: int|
        #![trigger all.contains(j), ws[j].0.subrange(si, ws[j].0.len() as int)]
        all.contains(j) && 0 <= j < ws.len() && 1 <= si && si + 1 < ws[j].0.len() && (f, x) == (
            ws[j].0.subrange(si, ws[j].0.len() as int),
            ws[j].1 as u32,
        );
    assert(starts_with(ws[j].0.subrange(si, ws[j].0.len() as int), w));
}

/// A one-word query of at least two letters on an engine built from haystacks gives only
/// haystacks with a word that starts with the query word or holds it after its first letter,
/// as long as no leaf of either trie under the word's first two letters spells a proper
/// prefix of the rest of the word.
pub proof fn law_one_word_query_hits<const S: usize>(
    e: SearchEngine<S>,
    haystacks: Seq<String>,
    query: Seq<char>,
    res: Seq<u32>,
    w: Seq<u8>,
)
    requires
        e.wf(),
        root_holds(e.tree.prefix_tree, e.tree.char_array@, prefix_frags(indexed_haystacks(haystacks))),
        root_holds(e.tree.inner_tree, e.tree.char_array@, inner_frags(indexed_haystacks(haystacks))),
        query_words(query) == seq![w],
        w.len() >= 2,
        letters(w),
        no_short_leaf(
            e.tree.prefix_tree.children@[w[0] as int].children@[w[1] as int].0@,
            e.tree.char_array@,
            w.subrange(2, w.len() as int),
        ),
        no_short_leaf(
            e.tree.inner_tree.children@[w[0] as int].children@[w[1] as int].0@,
            e.tree.char_array@,
            w.subrange(2, w.len() as int),
        ),
        query_answer(e.tree, query, res),
    ensures
        forall|x: u32| res.contains(x) ==> #[trigger] word_hits(indexed_haystacks(haystacks), w).contains(x),
{
    let ws = indexed_haystacks(haystacks);
    let ca = e.tree.char_array@;
    let u = w.subrange(2, w.len() as int);
    let c0 = w[0] as int;
    let c1 = w[1] as int;
    assert(w[0] < 26 && w[1] < 26);
    let breaks = word_set(query_bytes(query)).1;
    assert(query_words(query).len() == breaks.len());
    assert(one_word(query));
    assert(first_word(query) == query_words(query)[0]);
    assert(first_word(query) == w);
    let m = choose|m: QueryResult|
        #[trigger] word_matches(e.tree, first_word(query), S, m) && res == joined(m).subrange(
            0,
            res.len() as int,
        ) && res.len() <= joined(m).len() && (res.len() == S || res.len() == joined(m).len());
    let pre = choose|pre: QueryResult|
        #[trigger] root_query_result(e.tree.prefix_tree, ca, w, pre) && m.wf()
            && m.perfect@ == pre.perfect@ && (if fewer_than(pre, S) {
            exists|ins: Seq<u32>|
                #[trigger] root_inner_result(e.tree.inner_tree, ca, w, ins)
                    && m.partial@.to_set() == pre.partial@.to_set().union(ins.to_set())
        } else {
            m.partial@ == pre.partial@
        });
    let w1 = w.subrange(1, w.len() as int);
    assert(w1[0] == w[1]);
    assert(w1.subrange(1, w1.len() as int) =~= u);
    let pnode = e.tree.prefix_tree.children@[c0];
    let inode = e.tree.inner_tree.children@[c0];
    let pl = pnode.children@[c1].0@;
    let il = inode.children@[c1].0@;
    assert(e.tree.prefix_tree.wf(ca));
    assert(e.tree.inner_tree.wf(ca));
    assert(pnode.wf(ca));
    assert(inode.wf(ca));
    assert(pnode.children@[c1].wf(ca));
    assert(leaves_query_result(pl, ca, u, pre));
    assert(leaf_pairs(pl, ca) == frag_tails_under(prefix_frags(ws), c0, c1));
    assert(leaf_pairs(il, ca) == frag_tails_under(inner_frags(ws), c0, c1));
    assert(leaves_in_order(pl, ca));
    assert(leaves_in_order(il, ca));
    lemma_missing_from(m.perfect@, m.partial@);
    assert forall|x: u32| res.contains(x) implies #[trigger] word_hits(ws, w).contains(x) by {
        let i = choose|i: int| 0 <= i < res.len() && res[i] == x;
        assert(joined(m).subrange(0, res.len() as int)[i] == joined(m)[i]);
        assert(joined(m).contains(x));
        let jm = joined(m);
        let p = m.perfect@;
        if i < p.len() {
            assert(p[i] == x);
            assert(p.contains(x));
        } else {
            assert(missing_from(p, m.partial@)[i - p.len()] == x);
            assert(missing_from(p, m.partial@).contains(x));
        }
        if pre.perfect@.contains(x) || pre.partial@.contains(x) {
            lemma_leaves_query_hits(pl, ca, u, pre, x);
            let t = choose|t: Seq<u8>| #[trigger] leaf_pairs(pl, ca).contains((t, x)) && starts_with(t, u);
            lemma_prefix_tail_hit(ws, w, t, x);
        } else {
            assert(m.partial@.contains(x));
            assert(m.partial@.to_set().contains(x));
            assert(fewer_than(pre, S));
            let ins = choose|ins: Seq<u32>|
                #[trigger] root_inner_result(e.tree.inner_tree, ca, w, ins)
                    && m.partial@.to_set() == pre.partial@.to_set().union(ins.to_set());
            assert(ins.to_set().contains(x));
            assert(ins.contains(x));
            assert(leaves_inner_result(il, ca, u, ins));
            lemma_leaves_inner_hits(il, ca, u, ins, x);
            let t = choose|t: Seq<u8>| #[trigger] leaf_pairs(il, ca).contains((t, x)) && starts_with(t, u);
            lemma_inner_tail_hit(ws, w, t, x);
        }
    }
}

/// Over leaves in the order of their suffixes, none of which spells a proper prefix of `u`,
/// no leaf outside the stretch of the binary search agrees with `u`.
proof fn lemma_stretch_outside(leaves: Seq<TrieLeaf>, ca: Seq<u8>, u: Seq<u8>, l: int, r: int)
    requires
        sides_of(leaves, ca, u, l, r),
        leaves_in_order(leaves, ca),
        no_short_leaf(leaves, ca, u),
    ensures
        forall|i: int|
            0 <= i < leaves.len() && !(l <= i < r) ==> !agrees(#[trigger] leaves[i].suffix.view_in(ca), u),
{
    assert forall|i: int| 0 <= i < leaves.len() && !(l <= i < r) implies !agrees(
        #[trigger] leaves[i].suffix.view_in(ca),
        u,
    ) by {
        let si = leaves[i].suffix.view_in(ca);
        lemma_trunc_agrees(si, u);
        if i < l {
            let sl = leaves[l - 1].suffix.view_in(ca);
            if i < l - 1 {
                assert(lex_lt(si, sl) || si == sl);
            }
            lemma_under_monotone(si, sl, u);
        } else {
            let sr = leaves[r].suffix.view_in(ca);
            if trunc_less(si, u, true) {
                if r < i {
                    assert(lex_lt(sr, si) || sr == si);
                }
                lemma_not_over_monotone(sr, si, u);
            }
        }
    }
}

proof fn lemma_longer_has(m: Seq<TrieLeaf>, n: int, k: int, x: u32)
    requires
        0 <= k < m.len(),
        m[k].suffix.len > n,
        m[k].ids@.contains(x),
    ensures
        longer_ids(m, n).contains(x),
    decreases m.len(),
{
    if k == m.len() - 1 {
        assert(m.last() == m[k]);
        assert(m.last().ids@.to_set().contains(x));
    } else {
        assert(m.drop_last()[k] == m[k]);
        lemma_longer_has(m.drop_last(), n, k, x);
    }
}

/// The haystacks with a word that starts with `w` and is longer than it.
pub open spec fn longer_word_hits(ws: Seq<(Seq<u8>, usize)>, w: Seq<u8>) -> Set<u32> {
    Set::new(
        |x: u32|
            exists|j: int|
                0 <= j < ws.len() && ws[j].1 as u32 == x && ws[j].0.len() > w.len() && #[trigger] starts_with(
                    ws[j].0,
                    w,
                ),
    )
}

/// A one-word query of at least two letters on an engine built from haystacks that gives
/// fewer than `S` ids lists every haystack with a word that starts with the query word and is
/// longer than it, as long as no leaf of the prefix trie under the word's first two letters
/// spells a proper prefix of the rest of the word.
pub proof fn law_one_word_query_finds_longer<const S: usize>(
    e: SearchEngine<S>,
    haystacks: Seq<String>,
    query: Seq<char>,
    res: Seq<u32>,
    w: Seq<u8>,
)
    requires
        e.wf(),
        root_holds(e.tree.prefix_tree, e.tree.char_array@, prefix_frags(indexed_haystacks(haystacks))),
        query_words(query) == seq![w],
        w.len() >= 2,
        letters(w),
        no_short_leaf(
            e.tree.prefix_tree.children@[w[0] as int].children@[w[1] as int].0@,
            e.tree.char_array@,
            w.subrange(2, w.len() as int),
        ),
        query_answer(e.tree, query, res),
        res.len() < S,
    ensures
        forall|x: u32| #[trigger] longer_word_hits(indexed_haystacks(haystacks), w).contains(x) ==> res.contains(x),
{
    let ws = indexed_haystacks(haystacks);
    let ca = e.tree.char_array@;
    let u = w.subrange(2, w.len() as int);
    let c0 = w[0] as int;
    let c1 = w[1] as int;
    assert(w[0] < 26 && w[1] < 26);
    let breaks = word_set(query_bytes(query)).1;
    assert(query_words(query).len() == breaks.len());
    assert(one_word(query));
    assert(first_word(query) == query_words(query)[0]);
    assert(first_word(query) == w);
    let m = choose|m: QueryResult|
        #[trigger] word_matches(e.tree, first_word(query), S, m) && res == joined(m).subrange(
            0,
            res.len() as int,
        ) && res.len() <= joined(m).len() && (res.len() == S || res.len() == joined(m).len());
    let pre = choose|pre: QueryResult|
        #[trigger] root_query_result(e.tree.prefix_tree, ca, w, pre) && m.wf()
            && m.perfect@ == pre.perfect@ && (if fewer_than(pre, S) {
            exists|ins: Seq<u32>|
                #[trigger] root_inner_result(e.tree.inner_tree, ca, w, ins)
                    && m.partial@.to_set() == pre.partial@.to_set().union(ins.to_set())
        } else {
            m.partial@ == pre.partial@
        });
    let w1 = w.subrange(1, w.len() as int);
    assert(w1[0] == w[1]);
    assert(w1.subrange(1, w1.len() as int) =~= u);
    let pnode = e.tree.prefix_tree.children@[c0];
    let pl = pnode.children@[c1].0@;
    assert(e.tree.prefix_tree.wf(ca));
    assert(pnode.wf(ca));
    assert(pnode.children@[c1].wf(ca));
    assert(leaves_query_result(pl, ca, u, pre));
    assert(leaf_pairs(pl, ca) == frag_tails_under(prefix_frags(ws), c0, c1));
    assert(leaves_in_order(pl, ca));
    let (l, r) = choose|l: int, r: int|
        #![trigger sides_of(pl, ca, u, l, r)]
        sides_of(pl, ca, u, l, r) && pre.perfect@ == last_exact_ids(pl.subrange(l, r), u.len() as int)
            && pre.partial@.to_set() == longer_ids(pl.subrange(l, r), u.len() as int);
    lemma_stretch_outside(pl, ca, u, l, r);
    lemma_missing_from(m.perfect@, m.partial@);
    assert(res == joined(m)) by {
        assert(res.len() == joined(m).len());
        assert(joined(m).subrange(0, res.len() as int) =~= joined(m));
    }
    assert forall|x: u32| #[trigger] longer_word_hits(ws, w).contains(x) implies res.contains(x) by {
        let j = choose|j: int|
            0 <= j < ws.len() && ws[j].1 as u32 == x && ws[j].0.len() > w.len() && #[trigger] starts_with(ws[j].0, w);
        let f = ws[j].0;
        let all = Set::new(|i: int| 0 <= i < ws.len());
        assert(all.contains(j));
        assert(prefix_frags(ws).contains((f, x)));
        let t = f.subrange(2, f.len() as int);
        assert(f[0] == f.subrange(0, w.len() as int)[0]);
        assert(f[1] == f.subrange(0, w.len() as int)[1]);
        assert(f[0] == w[0] && f[1] == w[1]);
        let pr = (t, x);
        assert(prefix_frags(ws).contains((f, pr.1)) && f.len() >= 2 && f[0] == c0 && f[1] == c1 && pr.0
            == f.subrange(2, f.len() as int));
        assert(frag_tails_under(prefix_frags(ws), c0, c1).contains(pr));
        assert(leaf_pairs(pl, ca).contains((t, x)));
        let i = choose|i: int|
            #![trigger pl[i]]
            0 <= i < pl.len() && pl[i].suffix.view_in(ca) == t && pl[i].ids@.contains(x);
        assert(agrees(t, u)) by {
            assert forall|k: int| 0 <= k < t.len() && k < u.len() implies #[trigger] t[k] == u[k] by {
                assert(f.subrange(0, w.len() as int)[k + 2] == w[k + 2]);
            }
        }
        assert(pl[i].wf(ca));
        assert(l <= i < r);
        let mm = pl.subrange(l, r);
        assert(mm[i - l] == pl[i]);
        lemma_longer_has(mm, u.len() as int, i - l, x);
        assert(pre.partial@.to_set().contains(x));
        assert(pre.partial@.contains(x));
        assert(m.partial@.to_set().contains(x));
        assert(m.partial@.contains(x));
        let p = m.perfect@;
        if p.contains(x) {
            let a = choose|a: int| 0 <= a < p.len() && p[a] == x;
            assert(joined(m)[a] == x);
        } else {
            let mf = missing_from(p, m.partial@);
            assert(mf.contains(x));
            let a = choose|a: int| 0 <= a < mf.len() && mf[a] == x;
            assert(joined(m)[p.len() + a] == x);
        }
    }
}

/// A kept id of a filtered list is an id of the list.
proof fn lemma_included_in(ids: Seq<u32>, within: QueryResult, x: u32)
    requires
        included(ids, within).contains(x),
    ensures
        ids.contains(x),
    decreases ids.len(),
{
    reveal(Seq::filter);
    let f = |y: u32| within.has(y);
    if ids.len() > 0 {
        if ids.last() == x {
            assert(ids[ids.len() - 1] == x);
        } else {
            let sub = ids.drop_last().filter(f);
            assert(included(ids.drop_last(), within) == sub);
            if f(ids.last()) {
                let i = choose|i: int| 0 <= i < ids.filter(f).len() && ids.filter(f)[i] == x;
                assert(ids.filter(f) == sub.push(ids.last()));
                assert(i < sub.len());
                assert(sub[i] == x);
            }
            lemma_included_in(ids.drop_last(), within, x);
            let j = choose|j: int| 0 <= j < ids.drop_last().len() && ids.drop_last()[j] == x;
            assert(ids[j] == x);
        }
    }
}

proof fn lemma_last_exact_included_member(m: Seq<TrieLeaf>, n: int, within: QueryResult, x: u32)
    requires
        last_exact_included(m, n, within).contains(x),
    ensures
        exists|k: int| 0 <= k < m.len() && (#[trigger] m[k]).ids@.contains(x),
    decreases m.len(),
{
    if m.len() > 0 {
        if m.last().suffix.len == n {
            lemma_included_in(m.last().ids@, within, x);
            assert(m[m.len() - 1] == m.last());
        } else {
            lemma_last_exact_included_member(m.drop_last(), n, within, x);
            let k = choose|k: int| 0 <= k < m.drop_last().len() && (#[trigger] m.drop_last()[k]).ids@.contains(x);
            assert(m[k] == m.drop_last()[k]);
        }
    }
}

proof fn lemma_other_included_member(m: Seq<TrieLeaf>, n: int, within: QueryResult, x: u32)
    requires
        other_included(m, n, within).contains(x),
    ensures
        exists|k: int| 0 <= k < m.len() && (#[trigger] m[k]).ids@.contains(x),
    decreases m.len(),
{
    if m.len() > 0 {
        if m.last().suffix.len != n && included(m.last().ids@, within).to_set().contains(x) {
            lemma_included_in(m.last().ids@, within, x);
            assert(m[m.len() - 1] == m.last());
        } else {
            lemma_other_included_member(m.drop_last(), n, within, x);
            let k = choose|k: int| 0 <= k < m.drop_last().len() && (#[trigger] m.drop_last()[k]).ids@.contains(x);
            assert(m[k] == m.drop_last()[k]);
        }
    }
}

proof fn lemma_all_included_member(m: Seq<TrieLeaf>, within: QueryResult, x: u32)
    requires
        all_included(m, within).contains(x),
    ensures
        exists|k: int| 0 <= k < m.len() && (#[trigger] m[k]).ids@.contains(x),
    decreases m.len(),
{
    if m.len() > 0 {
        if included(m.last().ids@, within).to_set().contains(x) {
            lemma_included_in(m.last().ids@, within, x);
            assert(m[m.len() - 1] == m.last());
        } else {
            lemma_all_included_member(m.drop_last(), within, x);
            let k = choose|k: int| 0 <= k < m.drop_last().len() && (#[trigger] m.drop_last()[k]).ids@.contains(x);
            assert(m[k] == m.drop_last()[k]);
        }
    }
}

/// An id of a leaf within the stretch of the binary search comes with a suffix that starts
/// with the word, where no leaf spells a proper prefix of it.
proof fn lemma_stretch_hit(leaves: Seq<TrieLeaf>, ca: Seq<u8>, u: Seq<u8>, l: int, r: int, k: int, x: u32)
    requires
        sides_of(leaves, ca, u, l, r),
        leaves_in_order(leaves, ca),
        no_short_leaf(leaves, ca, u),
        0 <= k < r - l,
        leaves.subrange(l, r)[k].ids@.contains(x),
    ensures
        exists|t: Seq<u8>| #[trigger] leaf_pairs(leaves, ca).contains((t, x)) && starts_with(t, u),
{
    lemma_stretch_agrees(leaves, ca, u, l, r);
    let i = l + k;
    assert(leaves.subrange(l, r)[k] == leaves[i]);
    let t = leaves[i].suffix.view_in(ca);
    assert(agrees(t, u));
    assert(!proper_prefix(t, u));
    assert(t.subrange(0, u.len() as int) =~= u);
    assert(leaf_pairs(leaves, ca).contains((t, x)));
}

/// The ids a query of the first of several words gives, where its word has two letters or
/// more and no leaf under them spells a proper prefix of the rest of it, are haystacks with
/// a word that starts with it or holds it after its first letter.
proof fn lemma_first_matches_hit<const S: usize>(e: SearchEngine<S>, haystacks: Seq<String>, w: Seq<u8>, m: QueryResult, x: u32)
    requires
        e.wf(),
        root_holds(e.tree.prefix_tree, e.tree.char_array@, prefix_frags(indexed_haystacks(haystacks))),
        root_holds(e.tree.inner_tree, e.tree.char_array@, inner_frags(indexed_haystacks(haystacks))),
        w.len() >= 2,
        letters(w),
        no_short_leaf(e.tree.prefix_tree.children@[w[0] as int].children@[w[1] as int].0@, e.tree.char_array@, w.subrange(2, w.len() as int)),
        no_short_leaf(e.tree.inner_tree.children@[w[0] as int].children@[w[1] as int].0@, e.tree.char_array@, w.subrange(2, w.len() as int)),
        first_matches(e.tree, w, m),
        m.has(x),
    ensures
        word_hits(indexed_haystacks(haystacks), w).contains(x),
{
    let ws = indexed_haystacks(haystacks);
    let ca = e.tree.char_array@;
    let u = w.subrange(2, w.len() as int);
    let c0 = w[0] as int;
    let c1 = w[1] as int;
    assert(w[0] < 26 && w[1] < 26);
    let pre = choose|pre: QueryResult|
        #[trigger] root_query_result(e.tree.prefix_tree, ca, w, pre) && m.wf() && m.perfect@ == pre.perfect@
            && exists|ins: Seq<u32>|
            #[trigger] root_inner_result(e.tree.inner_tree, ca, w, ins) && m.partial@.to_set()
                == pre.partial@.to_set().union(ins.to_set());
    let w1 = w.subrange(1, w.len() as int);
    assert(w1[0] == w[1]);
    assert(w1.subrange(1, w1.len() as int) =~= u);
    let pnode = e.tree.prefix_tree.children@[c0];
    let inode = e.tree.inner_tree.children@[c0];
    let pl = pnode.children@[c1].0@;
    let il = inode.children@[c1].0@;
    assert(e.tree.prefix_tree.wf(ca));
    assert(e.tree.inner_tree.wf(ca));
    assert(pnode.wf(ca));
    assert(inode.wf(ca));
    assert(pnode.children@[c1].wf(ca));
    assert(leaves_query_result(pl, ca, u, pre));
    assert(leaf_pairs(pl, ca) == frag_tails_under(prefix_frags(ws), c0, c1));
    assert(leaf_pairs(il, ca) == frag_tails_under(inner_frags(ws), c0, c1));
    assert(leaves_in_order(pl, ca));
    assert(leaves_in_order(il, ca));
    if pre.perfect@.contains(x) || pre.partial@.contains(x) {
        lemma_leaves_query_hits(pl, ca, u, pre, x);
        let t = choose|t: Seq<u8>| #[trigger] leaf_pairs(pl, ca).contains((t, x)) && starts_with(t, u);
        lemma_prefix_tail_hit(ws, w, t, x);
    } else {
        assert(m.partial@.contains(x));
        assert(m.partial@.to_set().contains(x));
        let ins = choose|ins: Seq<u32>|
            #[trigger] root_inner_result(e.tree.inner_tree, ca, w, ins) && m.partial@.to_set()
                == pre.partial@.to_set().union(ins.to_set());
        assert(ins.to_set().contains(x));
        assert(ins.contains(x));
        assert(leaves_inner_result(il, ca, u, ins));
        lemma_leaves_inner_hits(il, ca, u, ins, x);
        let t = choose|t: Seq<u8>| #[trigger] leaf_pairs(il, ca).contains((t, x)) && starts_with(t, u);
        lemma_inner_tail_hit(ws, w, t, x);
    }
}

/// The ids a query of a later word gives within earlier matches, where its word has two
/// letters or more and no leaf under them spells a proper prefix of the rest of it, are
/// haystacks with a word that starts with it or holds it after its first letter.
proof fn lemma_next_matches_hit<const S: usize>(
    e: SearchEngine<S>,
    haystacks: Seq<String>,
    w: Seq<u8>,
    prev: QueryResult,
    m: QueryResult,
    x: u32,
)
    requires
        e.wf(),
        root_holds(e.tree.prefix_tree, e.tree.char_array@, prefix_frags(indexed_haystacks(haystacks))),
        root_holds(e.tree.inner_tree, e.tree.char_array@, inner_frags(indexed_haystacks(haystacks))),
        w.len() >= 2,
        letters(w),
        no_short_leaf(e.tree.prefix_tree.children@[w[0] as int].children@[w[1] as int].0@, e.tree.char_array@, w.subrange(2, w.len() as int)),
        no_short_leaf(e.tree.inner_tree.children@[w[0] as int].children@[w[1] as int].0@, e.tree.char_array@, w.subrange(2, w.len() as int)),
        next_matches(e.tree, w, prev, m),
        m.has(x),
    ensures
        word_hits(indexed_haystacks(haystacks), w).contains(x),
{
    let ws = indexed_haystacks(haystacks);
    let ca = e.tree.char_array@;
    let u = w.subrange(2, w.len() as int);
    let c0 = w[0] as int;
    let c1 = w[1] as int;
    assert(w[0] < 26 && w[1] < 26);
    let prefs = choose|prefs: QueryResult|
        #[trigger] root_filtered_result(e.tree.prefix_tree, ca, w, prev, prefs) && m.wf()
            && m.perfect@ == prefs.perfect@ && if w.len() > 1 {
            exists|ins: Seq<u32>|
                #[trigger] root_filtered_inner_result(e.tree.inner_tree, ca, w, prev, ins)
                    && m.partial@.to_set() == prefs.partial@.to_set().union(ins.to_set())
        } else {
            m.partial@ == prefs.partial@
        };
    let w1 = w.subrange(1, w.len() as int);
    assert(w1[0] == w[1]);
    assert(w1.subrange(1, w1.len() as int) =~= u);
    let pnode = e.tree.prefix_tree.children@[c0];
    let inode = e.tree.inner_tree.children@[c0];
    let pl = pnode.children@[c1].0@;
    let il = inode.children@[c1].0@;
    assert(e.tree.prefix_tree.wf(ca));
    assert(e.tree.inner_tree.wf(ca));
    assert(pnode.wf(ca));
    assert(inode.wf(ca));
    assert(leaf_pairs(pl, ca) == frag_tails_under(prefix_frags(ws), c0, c1));
    assert(leaf_pairs(il, ca) == frag_tails_under(inner_frags(ws), c0, c1));
    assert(leaves_in_order(pl, ca));
    assert(leaves_in_order(il, ca));
    if prefs.perfect@.contains(x) || prefs.partial@.contains(x) {
        assert(leaves_filtered_result(pl, ca, u, prev, prefs));
        let (l, r) = choose|l: int, r: int|
            #![trigger sides_of(pl, ca, u, l, r)]
            sides_of(pl, ca, u, l, r) && prefs.perfect@ == last_exact_included(pl.subrange(l, r), u.len() as int, prev)
                && prefs.partial@.to_set() == other_included(pl.subrange(l, r), u.len() as int, prev);
        let sub = pl.subrange(l, r);
        if prefs.perfect@.contains(x) {
            lemma_last_exact_included_member(sub, u.len() as int, prev, x);
        } else {
            assert(prefs.partial@.to_set().contains(x));
            lemma_other_included_member(sub, u.len() as int, prev, x);
        }
        let k = choose|k: int| 0 <= k < sub.len() && (#[trigger] sub[k]).ids@.contains(x);
        lemma_stretch_hit(pl, ca, u, l, r, k, x);
        let t = choose|t: Seq<u8>| #[trigger] leaf_pairs(pl, ca).contains((t, x)) && starts_with(t, u);
        lemma_prefix_tail_hit(ws, w, t, x);
    } else {
        assert(m.partial@.contains(x));
        assert(m.partial@.to_set().contains(x));
        let ins = choose|ins: Seq<u32>|
            #[trigger] root_filtered_inner_result(e.tree.inner_tree, ca, w, prev, ins)
                && m.partial@.to_set() == prefs.partial@.to_set().union(ins.to_set());
        assert(ins.to_set().contains(x));
        assert(leaves_filtered_inner_result(il, ca, u, prev, ins));
        let (l, r) = choose|l: int, r: int|
            #![trigger sides_of(il, ca, u, l, r)]
            sides_of(il, ca, u, l, r) && ins.to_set() == all_included(il.subrange(l, r), prev);
        let sub = il.subrange(l, r);
        lemma_all_included_member(sub, prev, x);
        let k = choose|k: int| 0 <= k < sub.len() && (#[trigger] sub[k]).ids@.contains(x);
        lemma_stretch_hit(il, ca, u, l, r, k, x);
        let t = choose|t: Seq<u8>| #[trigger] leaf_pairs(il, ca).contains((t, x)) && starts_with(t, u);
        lemma_inner_tail_hit(ws, w, t, x);
    }
}

/// The first three words of a query take two letters or more, and no leaf under their first
/// two letters, in either trie, spells a proper prefix of the rest of them.
pub open spec fn three_words_searchable<const S: usize>(e: SearchEngine<S>, ws: Seq<Seq<u8>>) -> bool {
    forall|j: int|
        0 <= j < 3 ==> (#[trigger] ws[j]).len() >= 2 && no_short_leaf(
            e.tree.prefix_tree.children@[ws[j][0] as int].children@[ws[j][1] as int].0@,
            e.tree.char_array@,
            ws[j].subrange(2, ws[j].len() as int),
        ) && no_short_leaf(
            e.tree.inner_tree.children@[ws[j][0] as int].children@[ws[j][1] as int].0@,
            e.tree.char_array@,
            ws[j].subrange(2, ws[j].len() as int),
        )
}

/// A query of three or more words on an engine built from haystacks gives only haystacks that,
/// for each of its first three words, hold a word that starts with it or holds it after its
/// first letter; as long as those words take two letters or more and no leaf under their
/// first two letters spells a proper prefix of the rest of them.
pub proof fn law_query_hits_first_three_words<const S: usize>(
    e: SearchEngine<S>,
    haystacks: Seq<String>,
    query: Seq<char>,
    res: Seq<u32>,
)
    requires
        e.wf(),
        root_holds(e.tree.prefix_tree, e.tree.char_array@, prefix_frags(indexed_haystacks(haystacks))),
        root_holds(e.tree.inner_tree, e.tree.char_array@, inner_frags(indexed_haystacks(haystacks))),
        query_words(query).len() >= 3,
        three_words_searchable(e, query_words(query)),
        query_answer(e.tree, query, res),
    ensures
        forall|x: u32, j: int|
            res.contains(x) && 0 <= j < 3 ==> #[trigger] word_hits(indexed_haystacks(haystacks), query_words(query)[j]).contains(x),
{
    let ws = query_words(query);
    crate::load_law::lemma_query_letters(query);
    crate::multi_word_law::law_query_keeps_three_words(e, query, res);
    let ms = choose|ms: Seq<QueryResult>|
        #![trigger first_matches(e.tree, query_words(query)[0], ms[0])]
        ms.len() == 3 && first_matches(e.tree, query_words(query)[0], ms[0])
            && next_matches(e.tree, query_words(query)[1], ms[0], ms[1])
            && next_matches(e.tree, query_words(query)[2], ms[1], ms[2])
            && forall|x: u32| #[trigger] res.contains(x) ==> ms[0].has(x) && ms[1].has(x) && ms[2].has(x);
    assert forall|x: u32, j: int| res.contains(x) && 0 <= j < 3 implies #[trigger] word_hits(indexed_haystacks(haystacks), ws[j]).contains(x) by {
        assert(ws[j].len() >= 2);
        assert(letters(ws[j]));
        if j == 0 {
            lemma_first_matches_hit(e, haystacks, ws[0], ms[0], x);
        } else if j == 1 {
            lemma_next_matches_hit(e, haystacks, ws[1], ms[0], ms[1], x);
        } else {
            lemma_next_matches_hit(e, haystacks, ws[2], ms[1], ms[2], x);
        }
    }
}

} // verus!