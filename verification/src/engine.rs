use vstd::prelude::*;
use crate::building::{
    entry_letters, frag_ids_under, inner_frags, prefix_frags, root_holds, words_ok, IndexedWord,
};
use crate::fixed_heap::{real_values, smallest_sorted};
use crate::search::{
    chained, fewer_than, joined, root_inner_result, root_query_result, sword_words, word_matches,
    words_searched, CustomTrie, QueryResult,
};
use crate::words::{query_bytes, word_set, StackWordSet, MAX_QUERY_CHARS, MAX_QUERY_WORDS};

verus! {

/// A search over haystacks of words: a query finds the haystacks with words that start
/// with, or contain, the query's words.
pub struct SearchEngine<const S: usize> {
    pub tree: CustomTrie<S>,
}

/// The letters of a query after its scan, padded with zeros to 256.
pub open spec fn padded_letters(query: Seq<char>) -> Seq<u8> {
    let chars = word_set(query_bytes(query)).0;
    chars + Seq::new((MAX_QUERY_CHARS - chars.len()) as nat, |i: int| 0u8)
}

/// A query's first word, as letters 0..26.
pub open spec fn first_word(query: Seq<char>) -> Seq<u8> {
    let breaks = word_set(query_bytes(query)).1;
    let end: int = if breaks.len() > 0 {
        breaks[0] as int
    } else {
        0
    };
    padded_letters(query).subrange(0, end)
}

/// A query's words, as letters 0..26.
pub open spec fn query_words(query: Seq<char>) -> Seq<Seq<u8>> {
    let breaks = word_set(query_bytes(query)).1;
    Seq::new(
        breaks.len(),
        |j: int| padded_letters(query).subrange(if j == 0 { 0 } else { breaks[j - 1] as int }, breaks[j] as int),
    )
}

/// The query has at most one word.
pub open spec fn one_word(query: Seq<char>) -> bool {
    word_set(query_bytes(query)).1.len() <= 1
}

/// A word with the index of its haystack.
pub open spec fn word_entries(ws: Seq<IndexedWord>) -> Seq<(Seq<u8>, usize)> {
    ws.map_values(|w: IndexedWord| (w.word@, w.outer_idx))
}

/// The words of the haystacks, haystack by haystack, each with the index of its haystack.
pub open spec fn haystack_words(hs: Seq<Seq<char>>) -> Seq<(Seq<u8>, usize)>
    decreases hs.len(),
{
    if hs.len() == 0 {
        Seq::empty()
    } else {
        haystack_words(hs.drop_last()) + query_words(hs.last()).map_values(|w: Seq<u8>| (w, (hs.len() - 1) as usize))
    }
}

/// The haystacks' ids fit a `u32`, and so does every place in the letters of their words.
pub open spec fn indexable_haystacks(hs: Seq<String>) -> bool {
    hs.len() < u32::MAX && entry_letters(indexed_haystacks(hs)) + MAX_QUERY_CHARS <= u32::MAX
}

/// The words before `i` hold no more letters than all of them.
proof fn lemma_entry_letters_prefix(es: Seq<(Seq<u8>, usize)>, i: int)
    requires
        0 <= i <= es.len(),
    ensures
        entry_letters(es.take(i)) <= entry_letters(es),
    decreases es.len() - i,
{
    if i == es.len() {
        assert(es.take(i) =~= es);
    } else {
        assert(es.take(i + 1).drop_last() =~= es.take(i));
        lemma_entry_letters_prefix(es, i + 1);
    }
}

/// The words of the haystacks, haystack by haystack, each with the index of its haystack.
pub open spec fn indexed_haystacks(hs: Seq<String>) -> Seq<(Seq<u8>, usize)> {
    haystack_words(hs.map_values(|h: String| h@))
}

/// The words of the haystacks, each with the index of its haystack.
pub fn get_idxed_words(haystacks: &Vec<String>) -> (res: Vec<IndexedWord>)
    requires
        haystacks@.len() < u32::MAX,
    ensures
        word_entries(res@) == haystack_words(haystacks@.map_values(|h: String| h@)),
        words_ok(res@),
        res@.len() <= MAX_QUERY_WORDS * haystacks@.len(),
        forall|k: int| 0 <= k < res@.len() ==> #[trigger] res@[k].outer_idx < haystacks@.len(),
{
    let ghost hv = haystacks@.map_values(|h: String| h@);
    let mut idxed_words: Vec<IndexedWord> = Vec::new();
    let mut hi: usize = 0;
    proof {
        assert(hv.take(0) =~= Seq::<Seq<char>>::empty());
        assert(word_entries(idxed_words@) =~= Seq::<(Seq<u8>, usize)>::empty());
    }
    while hi < haystacks.len()
        invariant
            hv == haystacks@.map_values(|h: String| h@),
            word_entries(idxed_words@) == haystack_words(hv.take(hi as int)),
            hi <= haystacks@.len(),
            words_ok(idxed_words@),
            idxed_words@.len() <= MAX_QUERY_WORDS * hi,
            forall|k: int| 0 <= k < idxed_words@.len() ==> #[trigger] idxed_words@[k].outer_idx < hi,
            haystacks@.len() < u32::MAX,
        decreases haystacks@.len() - hi,
    {
        let wstack = StackWordSet::new(haystacks[hi].as_str());
        let mut last_break: usize = 0;
        let mut b: usize = 0;
        let ghost base = idxed_words@.len();
        let ghost h = hv[hi as int];
        let ghost qw = query_words(h);
        let ghost prev = word_entries(idxed_words@);
        proof {
            assert(h == haystacks@[hi as int]@);
            assert(wstack.char_array@ == padded_letters(h));
            assert(wstack.breaks().len() == wstack.breaks_count);
            assert(qw.len() == wstack.breaks_count);
            assert(qw.take(0) =~= Seq::<Seq<u8>>::empty());
            assert(word_entries(idxed_words@) =~= prev + qw.take(0).map_values(|w: Seq<u8>| (w, hi)));
        }
        while b < wstack.breaks_count
            invariant
                qw == query_words(h),
                qw.len() == wstack.breaks_count,
                wstack.char_array@ == padded_letters(h),
                wstack.breaks() == word_set(query_bytes(h)).1,
                word_entries(idxed_words@) == prev + qw.take(b as int).map_values(|w: Seq<u8>| (w, hi)),
                wstack.wf(),
                hi < haystacks@.len(),
                haystacks@.len() < u32::MAX,
                b <= wstack.breaks_count,
                last_break as int == wstack.word_start(b as int),
                words_ok(idxed_words@),
                idxed_words@.len() == base + b,
                base <= MAX_QUERY_WORDS * hi,
                forall|k: int| 0 <= k < idxed_words@.len() ==> #[trigger] idxed_words@[k].outer_idx < hi + 1,
            decreases wstack.breaks_count - b,
        {
            let this_break = wstack.break_array[b] as usize;
            proof {
                if b > 0 {
                    assert(wstack.break_array@[b - 1] < wstack.break_array@[b as int]);
                }
            }
            let word = vstd::slice::slice_to_vec(
                vstd::slice::slice_subrange(wstack.char_array.as_slice(), last_break, this_break),
            );
            proof {
                assert forall|k: int| 0 <= k < word@.len() implies #[trigger] word@[k] < 26 by {
                    assert(word@[k] == wstack.char_array@[last_break + k]);
                }
            }
            let ghost before = idxed_words@;
            proof {
                assert(wstack.breaks()[b as int] == wstack.break_array@[b as int]);
                if b > 0 {
                    assert(wstack.breaks()[b - 1] == wstack.break_array@[b - 1]);
                }
                assert(word@ =~= qw[b as int]);
            }
            idxed_words.push(IndexedWord { word, outer_idx: hi });
            proof {
                assert(qw.take(b + 1) =~= qw.take(b as int).push(qw[b as int]));
                assert(word_entries(idxed_words@) =~= word_entries(before).push((qw[b as int], hi)));
                assert(qw.take(b + 1).map_values(|w: Seq<u8>| (w, hi)) =~= qw.take(b as int).map_values(|w: Seq<u8>| (w, hi)).push((qw[b as int], hi)));
            }
            proof {
                assert forall|k: int| 0 <= k < idxed_words@.len() implies {
                    &&& crate::search::letters(#[trigger] idxed_words@[k].word@)
                    &&& idxed_words@[k].word@.len() <= MAX_QUERY_CHARS
                    &&& idxed_words@[k].outer_idx < u32::MAX
                } by {
                    if k < before.len() {
                        assert(idxed_words@[k] == before[k]);
                    }
                }
            }
            last_break = this_break;
            b += 1;
        }
        proof {
            assert(qw.take(b as int) =~= qw);
            assert(hv.take(hi + 1).drop_last() =~= hv.take(hi as int));
            assert(hv.take(hi + 1).last() == h);
        }
        hi += 1;
    }
    proof {
        assert(hv.take(hi as int) =~= hv);
    }
    idxed_words
}

/// What a query answers: at most `S` ids, none twice; for a one-word query, the first of its
/// matches; for more words, the first of the matches of the last word searched, each word's
/// matches taken within those of the word before it.
pub open spec fn query_answer<const S: usize>(tree: CustomTrie<S>, query: Seq<char>, res: Seq<u32>) -> bool {
    &&& res.len() <= S
    &&& res.no_duplicates()
    &&& one_word(query) ==> exists|m: QueryResult|
        #[trigger] word_matches(tree, first_word(query), S, m) && res == joined(m).subrange(
            0,
            res.len() as int,
        ) && res.len() <= joined(m).len() && (res.len() == S || res.len() == joined(m).len())
    &&& !one_word(query) ==> exists|ms: Seq<QueryResult>|
        #[trigger] chained(tree, query_words(query), ms) && ms.len() == words_searched(
            query_words(query).len() as int,
        ) && res == joined(ms.last()).subrange(0, res.len() as int) && res.len() <= joined(
            ms.last(),
        ).len() && (res.len() == S || res.len() == joined(ms.last()).len())
}

/// The ids of the haystacks with a word that starts with letter `c`.
pub open spec fn ids_starting_with(ws: Seq<(Seq<u8>, usize)>, c: u8) -> Set<u32> {
    Set::new(
        |x: u32|
            exists|j: int|
                0 <= j < ws.len() && (#[trigger] ws[j]).0.len() > 0 && ws[j].0[0] == c && ws[j].1 as u32
                    == x,
    )
}

/// The prefix trie keeps, for each letter, the ids of the haystacks with a word that starts
/// with it.
proof fn lemma_ids_starting_with(ws: Seq<(Seq<u8>, usize)>, c: u8)
    ensures
        frag_ids_under(prefix_frags(ws), c as int) == ids_starting_with(ws, c),
{
    let fs = prefix_frags(ws);
    let all = Set::new(|j: int| 0 <= j < ws.len());
    assert forall|x: u32| frag_ids_under(fs, c as int).contains(x) <==> ids_starting_with(ws, c).contains(x) by {
        if frag_ids_under(fs, c as int).contains(x) {
            let f = choose|f: Seq<u8>| #[trigger] fs.contains((f, x)) && f.len() >= 1 && f[0] == c;
            let j = choose|j: int|
                #[trigger] all.contains(j) && 0 <= j < ws.len() && ws[j].0.len() > 0 && (f, x) == (
                    ws[j].0,
                    ws[j].1 as u32,
                );
            assert(ws[j].0[0] == c);
        }
        if ids_starting_with(ws, c).contains(x) {
            let j = choose|j: int|
                0 <= j < ws.len() && (#[trigger] ws[j]).0.len() > 0 && ws[j].0[0] == c && ws[j].1 as u32
                    == x;
            assert(all.contains(j));
            assert(fs.contains((ws[j].0, x)));
        }
    }
    assert(frag_ids_under(fs, c as int) =~= ids_starting_with(ws, c));
}

/// A one-letter query on an engine built from haystacks lists first, ascending, the smallest
/// ids of the haystacks with a word that starts with that letter: all of them, or `S` of them.
pub proof fn law_one_letter_query<const S: usize>(
    e: SearchEngine<S>,
    haystacks: Seq<String>,
    query: Seq<char>,
    res: Seq<u32>,
    c: u8,
)
    requires
        e.wf(),
        root_holds(e.tree.prefix_tree, e.tree.char_array@, prefix_frags(indexed_haystacks(haystacks))),
        query_words(query) == seq![seq![c]],
        c < 26,
        query_answer(e.tree, query, res),
    ensures
        exists|k: int|
            0 <= k <= res.len() && smallest_sorted(
                #[trigger] res.subrange(0, k),
                ids_starting_with(indexed_haystacks(haystacks), c),
                S as int,
            ),
{
    let ws = indexed_haystacks(haystacks);
    let w = seq![c];
    let breaks = word_set(query_bytes(query)).1;
    assert(query_words(query).len() == breaks.len());
    assert(one_word(query));
    assert(first_word(query) == query_words(query)[0]);
    assert(first_word(query) == w);
    let m = choose|m: QueryResult|
        #[trigger] word_matches(e.tree, first_word(query), S, m) && res == joined(m).subrange(
            0,
            res.len() as int,
        ) && res.len() <= joined(m).len() && (res.len() == S || res.len() == joined(m).len());
    let pre = choose|pre: QueryResult|
        #[trigger] root_query_result(e.tree.prefix_tree, e.tree.char_array@, w, pre) && m.wf()
            && m.perfect@ == pre.perfect@ && (if fewer_than(pre, S) {
            exists|ins: Seq<u32>|
                #[trigger] root_inner_result(e.tree.inner_tree, e.tree.char_array@, w, ins)
                    && m.partial@.to_set() == pre.partial@.to_set().union(ins.to_set())
        } else {
            m.partial@ == pre.partial@
        });
    let node = e.tree.prefix_tree.children@[c as int];
    assert(w.subrange(1, 1).len() == 0);
    assert(pre.perfect@ == real_values(node.out.arr@));
    assert(smallest_sorted(real_values(node.out.arr@), frag_ids_under(prefix_frags(ws), c as int), S as int));
    lemma_ids_starting_with(ws, c);
    let p = m.perfect@;
    let k = p.len() as int;
    assert(joined(m).subrange(0, k) =~= p);
    assert(k <= S);
    assert(joined(m).len() >= k);
    assert(k <= res.len());
    assert forall|i: int| 0 <= i < k implies #[trigger] res.subrange(0, k)[i] == p[i] by {
        let jm = joined(m);
        assert(res == jm.subrange(0, res.len() as int));
        assert(jm.subrange(0, res.len() as int)[i] == jm[i]);
        assert(jm.subrange(0, k)[i] == jm[i]);
    }
    assert(res.subrange(0, k) =~= p);
}

impl<const S: usize> SearchEngine<S> {
    /// The engine's tries are well formed.
    pub open spec fn wf(&self) -> bool {
        self.tree.wf()
    }

    /// Indexes the words of the haystacks; a haystack's id is its position. The prefix trie
    /// holds every word of every haystack, the trie of inner parts every word from each of its
    /// inner letters on, each with the haystack's id.
    pub fn new(haystacks: Vec<String>) -> (res: Self)
        requires
            S > 0,
            indexable_haystacks(haystacks@),
        ensures
            res.wf(),
            root_holds(res.tree.prefix_tree, res.tree.char_array@, prefix_frags(indexed_haystacks(haystacks@))),
            root_holds(res.tree.inner_tree, res.tree.char_array@, inner_frags(indexed_haystacks(haystacks@))),
    {
        let idxed_words = get_idxed_words(&haystacks);
        let trie = CustomTrie::<S>::new(idxed_words);
        Self { tree: trie }
    }

    /// Whether an engine can index the haystacks: their ids fit a `u32`, and every letter of
    /// their words has a place that a `u32` can point to.
    pub fn indexable(haystacks: &Vec<String>) -> (res: bool)
        ensures
            res == indexable_haystacks(haystacks@),
    {
        if haystacks.len() >= 0xffff_ffffusize {
            return false;
        }
        let ws = get_idxed_words(haystacks);
        let ghost es = word_entries(ws@);
        let limit: u64 = 0xffff_ffffu64 - 256;
        let mut total: u64 = 0;
        let mut i: usize = 0;
        proof {
            assert(es.take(0) =~= Seq::<(Seq<u8>, usize)>::empty());
            assert(es == indexed_haystacks(haystacks@));
        }
        while i < ws.len()
            invariant
                i <= ws@.len(),
                es == word_entries(ws@),
                es == indexed_haystacks(haystacks@),
                haystacks@.len() < u32::MAX,
                total as int == entry_letters(es.take(i as int)),
                limit == 0xffff_ffffu64 - 256,
                total <= limit,
            decreases ws@.len() - i,
        {
            proof {
                assert(es.take(i + 1).drop_last() =~= es.take(i as int));
                assert(es.take(i + 1).last() == es[i as int]);
            }
            let wl = ws[i].word.len() as u64;
            proof {
                assert(es[i as int].0 == ws@[i as int].word@);
                assert(entry_letters(es.take(i + 1)) == total + wl);
            }
            if wl > limit - total {
                proof {
                    lemma_entry_letters_prefix(es, i + 1);
                    assert(entry_letters(es) > limit);
                    assert(es == indexed_haystacks(haystacks@));
                    assert(entry_letters(indexed_haystacks(haystacks@)) + MAX_QUERY_CHARS > u32::MAX);
                    assert(!indexable_haystacks(haystacks@));
                }
                return false;
            }
            total = total + wl;
            i += 1;
        }
        proof {
            assert(es.take(i as int) =~= es);
        }
        true
    }

    /// The ids of the haystacks that match the query, at most `S`: for a one-word query,
    /// those whose words start with it, then those whose words hold it inside where the
    /// first kind leaves room; for more words, those that match each of the first three.
    pub fn query(&self, query: &str) -> (res: Vec<u32>)
        requires
            self.wf(),
        ensures
            query_answer(self.tree, query@, res@),
    {
        let sword = StackWordSet::new(query);
        let full = self.tree.query(&sword, S);
        let mut out: Vec<u32> = Vec::new();
        let mut i: usize = 0;
        while i < full.len() && i < S
            invariant
                i <= full@.len(),
                i <= S,
                out@ == full@.subrange(0, i as int),
            decreases full@.len() - i,
        {
            out.push(full[i]);
            proof {
                assert(full@.subrange(0, i + 1) =~= full@.subrange(0, i as int).push(full@[i as int]));
            }
            i += 1;
        }
        proof {
            assert forall|a: int, b: int| 0 <= a < out@.len() && 0 <= b < out@.len() && a != b implies out@[a] != out@[b] by {
                assert(out@[a] == full@[a] && out@[b] == full@[b]);
            }
            assert(sword.char_array@ == padded_letters(query@));
            if one_word(query@) {
                assert(sword.breaks().len() == sword.breaks_count);
                if sword.breaks_count > 0 {
                    assert(sword.breaks()[0] == sword.break_array@[0]);
                }
                let w = sword.char_array@.subrange(0, sword.break_array@[0] as int);
                assert(w == first_word(query@));
                let m = choose|m: QueryResult|
                    #[trigger] word_matches(self.tree, w, S, m) && full@ == joined(m);
                assert(word_matches(self.tree, first_word(query@), S, m));
                assert(out@ == joined(m).subrange(0, out@.len() as int));
            } else {
                let qw = query_words(query@);
                let sw = sword_words(sword);
                assert(sword.breaks().len() == sword.breaks_count);
                assert forall|j: int| 0 <= j < sw.len() implies sw[j] == qw[j] by {
                    assert(sword.breaks()[j] == sword.break_array@[j]);
                    if j > 0 {
                        assert(sword.breaks()[j - 1] == sword.break_array@[j - 1]);
                    }
                }
                assert(sw =~= qw);
                let ms = choose|ms: Seq<QueryResult>|
                    #[trigger] chained(self.tree, sword_words(sword), ms)
                        && ms.len() == words_searched(sword.breaks_count as int) && full@ == joined(ms.last());
                assert(chained(self.tree, qw, ms));
                assert(out@ == joined(ms.last()).subrange(0, out@.len() as int));
            }
        }
        out
    }
}

} // verus!
