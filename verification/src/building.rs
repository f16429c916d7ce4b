use vstd::prelude::*;
use crate::fixed_heap::{
    distinct_real, keeps_smallest, lemma_sorted_values_smallest, lemma_two_places_count,
    real_values, smallest_sorted, sorted_seq, with_value, FixedHeap,
};
use crate::merging::{merge_into_sorted_vec, strictly_sorted};
use crate::search::{
    finalized, get_overlap, get_suffix, letters, suffix_of, CustomTrie, TrieLeaf, TrieLeaves,
    TrieNodeL1, TrieNodeRoot, WordViaCharr, BRANCHING_LEVELS,
};
use crate::sorting::{in_key_order, is_permutation, lex_lt, lists, stable_order};
use crate::engine::word_entries;
use crate::words::MAX_QUERY_CHARS;

verus! {

broadcast use vstd::seq_lib::group_to_multiset_ensures;

/// A leaf while the trie is built: a suffix and the ids seen with it, each once.
pub struct PrepLeaf {
    pub suffix: WordViaCharr,
    pub ids: Vec<u32>,
}

/// A second-level node while the trie is built.
pub struct PrepTrieL1<const S: usize> {
    pub children: Vec<Vec<PrepLeaf>>,
    pub out: FixedHeap<S>,
}

/// The first-level node while the trie is built, with the word fragments entered so far,
/// each with the id of its haystack.
pub struct PrepTrieRoot<const S: usize> {
    pub children: Vec<PrepTrieL1<S>>,
    pub out: FixedHeap<S>,
    pub frags: Ghost<Set<(Seq<u8>, u32)>>,
}

/// A word of a haystack, as letters 0..26, with the haystack's index.
pub struct IndexedWord {
    pub word: Vec<u8>,
    pub outer_idx: usize,
}

/// The letter array ends with `suffix`.
pub open spec fn ends_with(char_arr: Seq<u8>, suffix: Seq<u8>) -> bool {
    suffix.len() <= char_arr.len() && char_arr.subrange(
        char_arr.len() - suffix.len(),
        char_arr.len() as int,
    ) == suffix
}

/// The ids of the fragments.
pub open spec fn frag_ids(fs: Set<(Seq<u8>, u32)>) -> Set<u32> {
    Set::new(|x: u32| exists|f: Seq<u8>| #[trigger] fs.contains((f, x)))
}

/// The ids of the fragments that start with letter `c`.
pub open spec fn frag_ids_under(fs: Set<(Seq<u8>, u32)>, c: int) -> Set<u32> {
    Set::new(|x: u32| exists|f: Seq<u8>| #[trigger] fs.contains((f, x)) && f.len() >= 1 && f[0] == c)
}

/// The fragments that start with letters `c` and `d`, without those two letters, each with
/// its id.
pub open spec fn frag_tails_under(fs: Set<(Seq<u8>, u32)>, c: int, d: int) -> Set<(Seq<u8>, u32)> {
    Set::new(
        |p: (Seq<u8>, u32)|
            exists|f: Seq<u8>|
                #[trigger] fs.contains((f, p.1)) && f.len() >= 2 && f[0] == c && f[1] == d && p.0
                    == f.subrange(2, f.len() as int),
    )
}

/// The pairs of a leaf's suffix and one of its ids.
pub open spec fn prep_leaf_pairs(leaves: Seq<PrepLeaf>, char_arr: Seq<u8>) -> Set<(Seq<u8>, u32)> {
    Set::new(
        |p: (Seq<u8>, u32)|
            exists|i: int|
                #![trigger leaves[i]]
                0 <= i < leaves.len() && leaves[i].suffix.view_in(char_arr) == p.0
                    && leaves[i].ids@.contains(p.1),
    )
}

/// One more fragment adds its id to the ids, to those of its first letter and its tail to
/// the tails under its first two letters.
proof fn lemma_frags_insert(fs: Set<(Seq<u8>, u32)>, f: Seq<u8>, id: u32)
    ensures
        frag_ids(fs.insert((f, id))) == frag_ids(fs).insert(id),
        forall|c: int|
            #[trigger] frag_ids_under(fs.insert((f, id)), c) == (if f.len() >= 1 && f[0] == c {
                frag_ids_under(fs, c).insert(id)
            } else {
                frag_ids_under(fs, c)
            }),
        forall|c: int, d: int|
            #[trigger] frag_tails_under(fs.insert((f, id)), c, d) == (if f.len() >= 2 && f[0] == c
                && f[1] == d {
                frag_tails_under(fs, c, d).insert((f.subrange(2, f.len() as int), id))
            } else {
                frag_tails_under(fs, c, d)
            }),
{
    let fs2 = fs.insert((f, id));
    assert forall|x: u32| frag_ids(fs2).contains(x) <==> frag_ids(fs).insert(id).contains(x) by {
        assert(fs2.contains((f, id)));
        if frag_ids(fs).contains(x) {
            let g = choose|g: Seq<u8>| #[trigger] fs.contains((g, x));
            assert(fs2.contains((g, x)));
        }
        if frag_ids(fs2).contains(x) && x != id {
            let g = choose|g: Seq<u8>| #[trigger] fs2.contains((g, x));
            assert(fs.contains((g, x)));
        }
    }
    assert(frag_ids(fs2) =~= frag_ids(fs).insert(id));
    assert forall|c: int|
        #[trigger] frag_ids_under(fs2, c) == (if f.len() >= 1 && f[0] == c {
            frag_ids_under(fs, c).insert(id)
        } else {
            frag_ids_under(fs, c)
        }) by {
        let rhs = if f.len() >= 1 && f[0] == c {
            frag_ids_under(fs, c).insert(id)
        } else {
            frag_ids_under(fs, c)
        };
        assert forall|x: u32| frag_ids_under(fs2, c).contains(x) <==> rhs.contains(x) by {
            assert(fs2.contains((f, id)));
            if frag_ids_under(fs, c).contains(x) {
                let g = choose|g: Seq<u8>| #[trigger] fs.contains((g, x)) && g.len() >= 1 && g[0] == c;
                assert(fs2.contains((g, x)));
            }
            if frag_ids_under(fs2, c).contains(x) {
                let g = choose|g: Seq<u8>| #[trigger] fs2.contains((g, x)) && g.len() >= 1 && g[0] == c;
                if (g, x) != (f, id) {
                    assert(fs.contains((g, x)));
                }
            }
        }
        assert(frag_ids_under(fs2, c) =~= rhs);
    }
    assert forall|c: int, d: int|
        #[trigger] frag_tails_under(fs2, c, d) == (if f.len() >= 2 && f[0] == c && f[1] == d {
            frag_tails_under(fs, c, d).insert((f.subrange(2, f.len() as int), id))
        } else {
            frag_tails_under(fs, c, d)
        }) by {
        let rhs = if f.len() >= 2 && f[0] == c && f[1] == d {
            frag_tails_under(fs, c, d).insert((f.subrange(2, f.len() as int), id))
        } else {
            frag_tails_under(fs, c, d)
        };
        assert forall|p: (Seq<u8>, u32)| frag_tails_under(fs2, c, d).contains(p) <==> rhs.contains(p) by {
            assert(fs2.contains((f, id)));
            if frag_tails_under(fs, c, d).contains(p) {
                let g = choose|g: Seq<u8>|
                    #[trigger] fs.contains((g, p.1)) && g.len() >= 2 && g[0] == c && g[1] == d && p.0
                        == g.subrange(2, g.len() as int);
                assert(fs2.contains((g, p.1)));
            }
            if frag_tails_under(fs2, c, d).contains(p) {
                let g = choose|g: Seq<u8>|
                    #[trigger] fs2.contains((g, p.1)) && g.len() >= 2 && g[0] == c && g[1] == d && p.0
                        == g.subrange(2, g.len() as int);
                if (g, p.1) != (f, id) {
                    assert(fs.contains((g, p.1)));
                } else {
                    assert(p == (f.subrange(2, f.len() as int), id));
                }
            }
            if f.len() >= 2 && f[0] == c && f[1] == d && p == (f.subrange(2, f.len() as int), id) {
                assert(fs2.contains((f, p.1)));
                assert(frag_tails_under(fs2, c, d).contains(p));
            }
        }
        assert(frag_tails_under(fs2, c, d) =~= rhs);
    }
}

/// A letter array that grows at its end keeps what the leaves point to.
proof fn lemma_pairs_grow(leaves: Seq<PrepLeaf>, a: Seq<u8>, b: Seq<u8>)
    requires
        prep_leaves_wf(leaves, a),
        a.len() <= b.len(),
        b.subrange(0, a.len() as int) == a,
    ensures
        prep_leaf_pairs(leaves, b) == prep_leaf_pairs(leaves, a),
{
    assert forall|i: int| 0 <= i < leaves.len() implies #[trigger] leaves[i].suffix.view_in(b)
        == leaves[i].suffix.view_in(a) by {
        assert(leaves[i].wf(a));
        let w = leaves[i].suffix;
        assert forall|k: int| 0 <= k < w.len implies #[trigger] w.view_in(b)[k] == w.view_in(a)[k] by {
            assert(b.subrange(0, a.len() as int)[w.start_idx + k] == b[w.start_idx + k]);
        }
        assert(w.view_in(b) =~= w.view_in(a));
    }
    assert forall|p: (Seq<u8>, u32)| prep_leaf_pairs(leaves, b).contains(p) <==> prep_leaf_pairs(
        leaves,
        a,
    ).contains(p) by {
        if prep_leaf_pairs(leaves, b).contains(p) {
            let i = choose|i: int|
                #![trigger leaves[i]]
                0 <= i < leaves.len() && leaves[i].suffix.view_in(b) == p.0 && leaves[i].ids@.contains(p.1);
            assert(leaves[i].suffix.view_in(a) == p.0);
        }
        if prep_leaf_pairs(leaves, a).contains(p) {
            let i = choose|i: int|
                #![trigger leaves[i]]
                0 <= i < leaves.len() && leaves[i].suffix.view_in(a) == p.0 && leaves[i].ids@.contains(p.1);
            assert(leaves[i].suffix.view_in(b) == p.0);
        }
    }
    assert(prep_leaf_pairs(leaves, b) =~= prep_leaf_pairs(leaves, a));
}

impl PrepLeaf {
    /// The suffix lies in the letter array and no id is held twice.
    pub open spec fn wf(&self, char_arr: Seq<u8>) -> bool {
        self.suffix.fits(char_arr) && self.ids@.no_duplicates()
    }
}

/// Every leaf is well formed.
pub open spec fn prep_leaves_wf(leaves: Seq<PrepLeaf>, char_arr: Seq<u8>) -> bool {
    forall|i: int| 0 <= i < leaves.len() ==> #[trigger] leaves[i].wf(char_arr)
}

impl<const S: usize> PrepTrieL1<S> {
    /// One group of leaves per letter and a well-formed heap.
    pub open spec fn wf(&self, char_arr: Seq<u8>) -> bool {
        &&& self.children@.len() == 26
        &&& forall|c: int| 0 <= c < 26 ==> prep_leaves_wf(#[trigger] self.children@[c]@, char_arr)
        &&& self.out.wf()
    }
}

impl<const S: usize> PrepTrieRoot<S> {
    /// One second-level node per letter and a well-formed heap, and the trie holds its
    /// fragments.
    pub open spec fn wf(&self, char_arr: Seq<u8>) -> bool {
        &&& self.children@.len() == 26
        &&& forall|c: int| 0 <= c < 26 ==> #[trigger] self.children@[c].wf(char_arr)
        &&& self.out.wf()
        &&& self.holds(char_arr)
    }

    /// The root's heap keeps the smallest ids of the fragments, the heap of each letter the
    /// smallest ids of the fragments that start with it, and the leaves under two letters
    /// hold the tails of the fragments that start with them, each with its id.
    pub open spec fn holds(&self, char_arr: Seq<u8>) -> bool {
        &&& keeps_smallest(self.out.arr@, frag_ids(self.frags@))
        &&& forall|c: int|
            0 <= c < 26 ==> keeps_smallest(
                #[trigger] self.children@[c].out.arr@,
                frag_ids_under(self.frags@, c),
            )
        &&& forall|c: int, d: int|
            0 <= c < 26 && 0 <= d < 26 ==> #[trigger] prep_leaf_pairs(
                self.children@[c].children@[d]@,
                char_arr,
            ) == frag_tails_under(self.frags@, c, d)
    }
}

/// Entering a fragment: the root's heap, the heap of its first letter and the leaves under
/// its first two letters take it, and the rest stays as it was.
proof fn lemma_entered_holds<const S: usize>(
    r0: PrepTrieRoot<S>,
    r1: PrepTrieRoot<S>,
    ca0: Seq<u8>,
    ca1: Seq<u8>,
    f: Seq<u8>,
    id: u32,
)
    requires
        r0.wf(ca0),
        id < u32::MAX,
        ca0.len() <= ca1.len(),
        ca1.subrange(0, ca0.len() as int) == ca0,
        r1.frags@ == r0.frags@.insert((f, id)),
        r1.children@.len() == 26,
        r1.out.wf(),
        forall|c: int| 0 <= c < 26 ==> #[trigger] r1.children@[c].wf(ca1),
        forall|xs: Set<u32>|
            #[trigger] keeps_smallest(r0.out.arr@, xs) ==> keeps_smallest(r1.out.arr@, with_value(xs, id)),
        forall|c: int|
            0 <= c < 26 && !(f.len() >= 1 && f[0] == c) ==> #[trigger] r1.children@[c].out.arr@
                == r0.children@[c].out.arr@,
        f.len() >= 1 ==> forall|xs: Set<u32>|
            #[trigger] keeps_smallest(r0.children@[f[0] as int].out.arr@, xs) ==> keeps_smallest(
                r1.children@[f[0] as int].out.arr@,
                with_value(xs, id),
            ),
        forall|c: int, d: int|
            0 <= c < 26 && 0 <= d < 26 && !(f.len() >= 2 && f[0] == c && f[1] == d)
                ==> #[trigger] r1.children@[c].children@[d]@ == r0.children@[c].children@[d]@,
        f.len() >= 2 ==> prep_leaf_pairs(r1.children@[f[0] as int].children@[f[1] as int]@, ca1)
            == prep_leaf_pairs(r0.children@[f[0] as int].children@[f[1] as int]@, ca0).insert(
            (f.subrange(2, f.len() as int), id),
        ),
    ensures
        r1.wf(ca1),
{
    let fs = r0.frags@;
    lemma_frags_insert(fs, f, id);
    assert(keeps_smallest(r1.out.arr@, with_value(frag_ids(fs), id)));
    assert forall|c: int| 0 <= c < 26 implies keeps_smallest(
        #[trigger] r1.children@[c].out.arr@,
        frag_ids_under(r1.frags@, c),
    ) by {
        assert(keeps_smallest(r0.children@[c].out.arr@, frag_ids_under(fs, c)));
        if f.len() >= 1 && f[0] == c {
            assert(keeps_smallest(
                r1.children@[f[0] as int].out.arr@,
                with_value(frag_ids_under(fs, c), id),
            ));
        }
    }
    assert forall|c: int, d: int| 0 <= c < 26 && 0 <= d < 26 implies #[trigger] prep_leaf_pairs(
        r1.children@[c].children@[d]@,
        ca1,
    ) == frag_tails_under(r1.frags@, c, d) by {
        assert(prep_leaf_pairs(r0.children@[c].children@[d]@, ca0) == frag_tails_under(fs, c, d));
        assert(r0.children@[c].wf(ca0));
        assert(prep_leaves_wf(r0.children@[c].children@[d]@, ca0));
        lemma_pairs_grow(r0.children@[c].children@[d]@, ca0, ca1);
    }
}

/// A longer letter array keeps the suffixes of the leaves in place.
proof fn lemma_leaves_grow(leaves: Seq<PrepLeaf>, a: Seq<u8>, b: Seq<u8>)
    requires
        prep_leaves_wf(leaves, a),
        a.len() <= b.len(),
    ensures
        prep_leaves_wf(leaves, b),
{
    assert forall|i: int| 0 <= i < leaves.len() implies #[trigger] leaves[i].wf(b) by {
        assert(leaves[i].wf(a));
    }
}

/// A longer letter array keeps a whole trie's suffixes in place.
proof fn lemma_root_grow<const S: usize>(root: PrepTrieRoot<S>, a: Seq<u8>, b: Seq<u8>)
    requires
        root.wf(a),
        a.len() <= b.len(),
        b.subrange(0, a.len() as int) == a,
    ensures
        root.wf(b),
{
    assert forall|c: int, d: int| 0 <= c < 26 && 0 <= d < 26 implies #[trigger] prep_leaf_pairs(
        root.children@[c].children@[d]@,
        b,
    ) == frag_tails_under(root.frags@, c, d) by {
        assert(root.children@[c].wf(a));
        assert(prep_leaves_wf(root.children@[c].children@[d]@, a));
        lemma_pairs_grow(root.children@[c].children@[d]@, a, b);
    }
    assert forall|c: int| 0 <= c < 26 implies #[trigger] root.children@[c].wf(b) by {
        let node = root.children@[c];
        assert(node.wf(a));
        assert forall|d: int| 0 <= d < 26 implies prep_leaves_wf(#[trigger] node.children@[d]@, b) by {
            assert(prep_leaves_wf(node.children@[d]@, a));
            lemma_leaves_grow(node.children@[d]@, a, b);
        }
    }
}

/// The set of a sequence with one more element.
proof fn lemma_push_to_set(s: Seq<u32>, e: u32)
    ensures
        s.push(e).to_set() == s.to_set().insert(e),
{
    assert forall|x: u32| s.push(e).to_set().contains(x) <==> s.to_set().insert(e).contains(x) by {
        if s.contains(x) {
            let k = choose|k: int| 0 <= k < s.len() && s[k] == x;
            assert(s.push(e)[k] == x);
        }
        if x == e {
            assert(s.push(e)[s.len() as int] == x);
        }
        if s.push(e).contains(x) && x != e {
            let k = choose|k: int| 0 <= k < s.push(e).len() && s.push(e)[k] == x;
            assert(s[k] == x);
        }
    }
    assert(s.push(e).to_set() =~= s.to_set().insert(e));
}

/// Whether `x` is among the elements of `v`.
pub fn vec_has(v: &Vec<u32>, x: u32) -> (res: bool)
    ensures
        res == v@.contains(x),
{
    let mut i: usize = 0;
    while i < v.len()
        invariant
            i <= v@.len(),
            forall|k: int| 0 <= k < i ==> v@[k] != x,
        decreases v@.len() - i,
    {
        if v[i] == x {
            return true;
        }
        i += 1;
    }
    false
}

/// The index of the leaf with suffix `e`, added at the end when there is none; the last leaf
/// is tried first.
pub fn get_i(v: &mut Vec<PrepLeaf>, e: WordViaCharr) -> (res: usize)
    ensures
        res < final(v)@.len(),
        final(v)@[res as int].suffix == e,
        final(v)@ == old(v)@ || (final(v)@.len() == old(v)@.len() + 1 && final(v)@.drop_last()
            == old(v)@ && final(v)@.last().ids@.len() == 0 && final(v)@.last().suffix == e),
{
    let n = v.len();
    if n > 0 {
        if e == v[n - 1].suffix {
            return n - 1;
        }
    }
    let mut i: usize = 0;
    while i < n
        invariant
            n == v@.len(),
            i <= n,
        decreases n - i,
    {
        if e == v[i].suffix {
            return i;
        }
        i += 1;
    }
    v.push(PrepLeaf { suffix: e, ids: Vec::new() });
    proof {
        assert(v@.drop_last() =~= old(v)@);
    }
    n
}

/// Adds the id to the leaf unless it holds it already.
pub fn add_id(leaf: &mut PrepLeaf, id: u32)
    requires
        old(leaf).ids@.no_duplicates(),
    ensures
        final(leaf).suffix == old(leaf).suffix,
        final(leaf).ids@.no_duplicates(),
        forall|x: u32| #[trigger] final(leaf).ids@.contains(x) <==> old(leaf).ids@.contains(x) || x == id,
{
    if !vec_has(&leaf.ids, id) {
        let ghost before = leaf.ids@;
        leaf.ids.push(id);
        proof {
            assert forall|x: u32| #[trigger] leaf.ids@.contains(x) <==> before.contains(x) || x == id by {
                if before.contains(x) {
                    let k = choose|k: int| 0 <= k < before.len() && before[k] == x;
                    assert(leaf.ids@[k] == x);
                }
                if x == id {
                    assert(leaf.ids@[before.len() as int] == x);
                }
                if leaf.ids@.contains(x) && x != id {
                    let k = choose|k: int| 0 <= k < leaf.ids@.len() && leaf.ids@[k] == x;
                    assert(before[k] == x);
                }
            }
        }
    }
}

/// Adds a word's suffix to the leaves under its first two letters: the letter array grows
/// by the part of the suffix that its end does not already spell.
pub fn add_suffix(
    leaves: &mut Vec<PrepLeaf>,
    suffix: &[u8],
    char_array: &mut Vec<u8>,
    last_suff: &[u8],
    id: u32,
)
    requires
        prep_leaves_wf(old(leaves)@, old(char_array)@),
        ends_with(old(char_array)@, last_suff@),
        suffix@.len() <= u16::MAX,
        old(char_array)@.len() + suffix@.len() <= u32::MAX,
    ensures
        prep_leaves_wf(final(leaves)@, final(char_array)@),
        final(char_array)@.subrange(0, old(char_array)@.len() as int) == old(char_array)@,
        old(char_array)@.len() <= final(char_array)@.len() <= old(char_array)@.len() + suffix@.len(),
        ends_with(last_suff@, suffix@) ==> final(char_array)@ == old(char_array)@,
        ends_with(final(char_array)@, suffix@),
        prep_leaf_pairs(final(leaves)@, final(char_array)@) == prep_leaf_pairs(
            old(leaves)@,
            old(char_array)@,
        ).insert((suffix@, id)),
{
    let ghost ca0 = char_array@;
    let overlap = get_overlap(suffix, last_suff);
    let ln = suffix.len();
    let mut k = overlap;
    proof {
        if overlap == ln && ln > 0 {
            let ls = last_suff@;
            assert(ca0.subrange(ca0.len() - ln, ca0.len() as int) =~= ls.subrange(
                ls.len() - ln,
                ls.len() as int,
            ));
        }
        if ln == 0 {
            assert(suffix@.subrange(0, 0) =~= Seq::<u8>::empty());
        }
        assert(char_array@ =~= ca0 + suffix@.subrange(overlap as int, k as int));
    }
    while k < ln
        invariant
            overlap <= k <= ln == suffix@.len(),
            char_array@ == ca0 + suffix@.subrange(overlap as int, k as int),
        decreases ln - k,
    {
        char_array.push(suffix[k]);
        proof {
            assert(char_array@ =~= ca0 + suffix@.subrange(overlap as int, k + 1));
        }
        k += 1;
    }
    let cal = char_array.len();
    proof {
        let ca = char_array@;
        if overlap == ln {
            assert(ca =~= ca0 + Seq::<u8>::empty());
            if ln > 0 {
                let ls = last_suff@;
                assert(ca0.subrange(ca0.len() - ln, ca0.len() as int) =~= ls.subrange(
                    ls.len() - ln,
                    ls.len() as int,
                ));
            } else {
                assert(ca0.subrange(ca0.len() as int, ca0.len() as int) =~= suffix@);
            }
        } else {
            assert(overlap == 0);
            assert(ca.subrange(ca.len() - ln, ca.len() as int) =~= suffix@);
        }
        assert(ca.subrange(0, ca0.len() as int) =~= ca0);
        if ends_with(last_suff@, suffix@) {
            assert(overlap == ln);
        }
        lemma_leaves_grow(leaves@, ca0, ca);
        lemma_pairs_grow(leaves@, ca0, ca);
    }
    let suff_by_idx = WordViaCharr { start_idx: (cal - ln) as u32, len: ln as u16 };
    let ghost lv0 = leaves@;
    let l2_idx = get_i(leaves, suff_by_idx);
    proof {
        if leaves@ != lv0 {
            assert forall|i: int| 0 <= i < leaves@.len() implies #[trigger] leaves@[i].wf(char_array@) by {
                if i < lv0.len() {
                    assert(leaves@[i] == leaves@.drop_last()[i]);
                    assert(lv0[i].wf(char_array@));
                }
            }
        }
        assert(leaves@[l2_idx as int].wf(char_array@));
    }
    let ghost lv1 = leaves@;
    proof {
        let ca = char_array@;
        assert(prep_leaf_pairs(lv1, ca) =~= prep_leaf_pairs(lv0, ca)) by {
            assert forall|p: (Seq<u8>, u32)| prep_leaf_pairs(lv1, ca).contains(p) <==> prep_leaf_pairs(
                lv0,
                ca,
            ).contains(p) by {
                if prep_leaf_pairs(lv1, ca).contains(p) {
                    let i = choose|i: int|
                        #![trigger lv1[i]]
                        0 <= i < lv1.len() && lv1[i].suffix.view_in(ca) == p.0 && lv1[i].ids@.contains(p.1);
                    if lv1 != lv0 {
                        if i < lv0.len() {
                            assert(lv1[i] == lv1.drop_last()[i]);
                        }
                    }
                    assert(lv0[i] == lv1[i]);
                }
                if prep_leaf_pairs(lv0, ca).contains(p) {
                    let i = choose|i: int|
                        #![trigger lv0[i]]
                        0 <= i < lv0.len() && lv0[i].suffix.view_in(ca) == p.0 && lv0[i].ids@.contains(p.1);
                    if lv1 != lv0 {
                        assert(lv1.drop_last()[i] == lv0[i]);
                    }
                    assert(lv1[i] == lv0[i]);
                }
            }
        }
        assert(suff_by_idx.view_in(ca) =~= suffix@);
    }
    add_id(&mut leaves[l2_idx], id);
    proof {
        assert forall|i: int| 0 <= i < leaves@.len() implies #[trigger] leaves@[i].wf(char_array@) by {
            if i != l2_idx {
                assert(leaves@[i] == lv1[i]);
                assert(lv1[i].wf(char_array@));
            }
        }
        let ca = char_array@;
        let lv2 = leaves@;
        let l = l2_idx as int;
        assert forall|p: (Seq<u8>, u32)| prep_leaf_pairs(lv2, ca).contains(p) <==> prep_leaf_pairs(
            lv1,
            ca,
        ).insert((suffix@, id)).contains(p) by {
            if prep_leaf_pairs(lv2, ca).contains(p) {
                let i = choose|i: int|
                    #![trigger lv2[i]]
                    0 <= i < lv2.len() && lv2[i].suffix.view_in(ca) == p.0 && lv2[i].ids@.contains(p.1);
                if i != l {
                    assert(lv1[i] == lv2[i]);
                } else if p.1 != id {
                    assert(lv1[i].ids@.contains(p.1));
                }
            }
            if prep_leaf_pairs(lv1, ca).contains(p) {
                let i = choose|i: int|
                    #![trigger lv1[i]]
                    0 <= i < lv1.len() && lv1[i].suffix.view_in(ca) == p.0 && lv1[i].ids@.contains(p.1);
                if i != l {
                    assert(lv1[i] == lv2[i]);
                } else {
                    assert(lv2[l].ids@.contains(p.1));
                }
            }
            if p == (suffix@, id) {
                assert(lv2[l].ids@.contains(id));
                assert(lv2[l].suffix.view_in(ca) == suffix@);
            }
        }
        assert(prep_leaf_pairs(lv2, ca) =~= prep_leaf_pairs(lv1, ca).insert((suffix@, id)));
    }
}

impl<const S: usize> PrepTrieL1<S> {
    /// A second-level node with no ids and no leaves.
    pub fn new() -> (res: Self)
        ensures
            res.wf(Seq::empty()),
            keeps_smallest(res.out.arr@, Set::empty()),
            forall|d: int| 0 <= d < 26 ==> (#[trigger] res.children@[d])@.len() == 0,
    {
        let mut children: Vec<Vec<PrepLeaf>> = Vec::new();
        let mut c: usize = 0;
        while c < 26
            invariant
                c <= 26,
                children@.len() == c,
                forall|k: int| 0 <= k < c ==> #[trigger] children@[k]@.len() == 0,
            decreases 26 - c,
        {
            children.push(Vec::new());
            c += 1;
        }
        let res = Self { children, out: FixedHeap::new() };
        proof {
            assert forall|k: int| 0 <= k < 26 implies prep_leaves_wf(#[trigger] res.children@[k]@, Seq::empty()) by {
                assert(res.children@[k]@.len() == 0);
            }
        }
        res
    }
}

impl<const S: usize> PrepTrieRoot<S> {
    /// A trie with no fragments: no ids and no leaves.
    pub fn new() -> (res: Self)
        ensures
            res.wf(Seq::empty()),
            res.frags@ == Set::<(Seq<u8>, u32)>::empty(),
    {
        let mut children: Vec<PrepTrieL1<S>> = Vec::new();
        let mut c: usize = 0;
        while c < 26
            invariant
                c <= 26,
                children@.len() == c,
                forall|k: int| 0 <= k < c ==> #[trigger] children@[k].wf(Seq::empty()),
                forall|k: int| 0 <= k < c ==> keeps_smallest(#[trigger] children@[k].out.arr@, Set::empty()),
                forall|k: int, d: int| 0 <= k < c && 0 <= d < 26 ==> (#[trigger] children@[k].children@[d])@.len() == 0,
            decreases 26 - c,
        {
            children.push(PrepTrieL1::new());
            c += 1;
        }
        let res = Self { children, out: FixedHeap::new(), frags: Ghost(Set::empty()) };
        proof {
            let fs = Set::<(Seq<u8>, u32)>::empty();
            assert(frag_ids(fs) =~= Set::empty());
            assert forall|c: int| 0 <= c < 26 implies keeps_smallest(
                #[trigger] res.children@[c].out.arr@,
                frag_ids_under(fs, c),
            ) by {
                assert(frag_ids_under(fs, c) =~= Set::empty());
            }
            assert forall|c: int, d: int| 0 <= c < 26 && 0 <= d < 26 implies #[trigger] prep_leaf_pairs(
                res.children@[c].children@[d]@,
                Seq::empty(),
            ) == frag_tails_under(fs, c, d) by {
                assert(res.children@[c].children@[d]@.len() == 0);
                assert(prep_leaf_pairs(res.children@[c].children@[d]@, Seq::empty()) =~= Set::empty());
                assert(frag_tails_under(fs, c, d) =~= Set::empty());
            }
        }
        res
    }

    /// Enters the word from letter `start_char` on: its id goes to the root, to the node of
    /// its first letter and to the leaf of its suffix after two letters. Returns the suffix,
    /// or `last_suff` for a word of fewer than two letters.
    pub fn extend(
        &mut self,
        idxed_word: &IndexedWord,
        char_array: &mut Vec<u8>,
        start_char: usize,
        last_suff: &[u8],
    ) -> (res: Vec<u8>)
        requires
            old(self).wf(old(char_array)@),
            S > 0,
            start_char <= idxed_word.word@.len(),
            letters(idxed_word.word@),
            idxed_word.word@.len() <= MAX_QUERY_CHARS,
            idxed_word.outer_idx < u32::MAX,
            ends_with(old(char_array)@, last_suff@),
            old(char_array)@.len() + MAX_QUERY_CHARS <= u32::MAX,
        ensures
            final(self).wf(final(char_array)@),
            old(char_array)@.len() <= final(char_array)@.len() <= old(char_array)@.len() + (
            idxed_word.word@.len() - start_char),
            final(char_array)@.subrange(0, old(char_array)@.len() as int) == old(char_array)@,
            ends_with(final(char_array)@, res@),
            idxed_word.word@.len() - start_char >= BRANCHING_LEVELS ==> res@
                == idxed_word.word@.subrange(start_char + BRANCHING_LEVELS, idxed_word.word@.len() as int),
            idxed_word.word@.len() - start_char < BRANCHING_LEVELS ==> res@ == last_suff@,
            idxed_word.word@.len() >= start_char + BRANCHING_LEVELS && ends_with(
                last_suff@,
                idxed_word.word@.subrange(
                    start_char + BRANCHING_LEVELS,
                    idxed_word.word@.len() as int,
                ),
            ) ==> final(char_array)@ == old(char_array)@,
            final(self).frags@ == old(self).frags@.insert(
                (
                    idxed_word.word@.subrange(start_char as int, idxed_word.word@.len() as int),
                    idxed_word.outer_idx as u32,
                ),
            ),
    {
        let full_word = vstd::slice::slice_subrange(idxed_word.word.as_slice(), start_char, idxed_word.word.len());
        let id = idxed_word.outer_idx as u32;
        let ghost r0 = *self;
        let ghost f = full_word@;
        proof {
            assert(f =~= idxed_word.word@.subrange(start_char as int, idxed_word.word@.len() as int));
        }
        self.frags = Ghost(self.frags@.insert((f, id)));
        self.out.push_unique(id);
        let ghost ca0 = char_array@;
        if full_word.len() < 1 {
            proof {
                assert(char_array@.subrange(0, ca0.len() as int) =~= ca0);
                lemma_entered_holds(r0, *self, ca0, char_array@, f, id);
            }
            return vstd::slice::slice_to_vec(last_suff);
        }
        let c0 = full_word[0] as usize;
        proof {
            assert(full_word@[0] == idxed_word.word@[start_char as int]);
            assert(idxed_word.word@[start_char as int] < 26);
            assert(self.children@[c0 as int].wf(ca0));
        }
        let ghost ch0 = self.children@[c0 as int];
        let l1 = &mut self.children[c0];
        l1.out.push_unique(id);
        if full_word.len() < 2 {
            proof {
                assert(char_array@.subrange(0, ca0.len() as int) =~= ca0);
                lemma_entered_holds(r0, *self, ca0, char_array@, f, id);
            }
            return vstd::slice::slice_to_vec(last_suff);
        }
        let c1 = full_word[1] as usize;
        proof {
            assert(full_word@[1] == idxed_word.word@[start_char + 1]);
            assert(idxed_word.word@[start_char + 1] < 26);
            assert(prep_leaves_wf(ch0.children@[c1 as int]@, ca0));
        }
        let suffix = vstd::slice::slice_subrange(full_word, BRANCHING_LEVELS, full_word.len());
        proof {
            assert(suffix@ =~= idxed_word.word@.subrange(start_char + BRANCHING_LEVELS, idxed_word.word@.len() as int));
        }
        let ghost l1_before = l1.children@;
        add_suffix(&mut l1.children[c1], suffix, char_array, last_suff, id);
        proof {
            let ca = char_array@;
            assert forall|c: int| 0 <= c < 26 implies prep_leaves_wf(#[trigger] l1.children@[c]@, ca) by {
                if c != c1 {
                    assert(l1.children@[c] == l1_before[c]);
                    assert(prep_leaves_wf(ch0.children@[c]@, ca0));
                    lemma_leaves_grow(ch0.children@[c]@, ca0, ca);
                }
            }
        }
        proof {
            let ca = char_array@;
            assert forall|c: int| 0 <= c < 26 implies #[trigger] self.children@[c].wf(ca) by {
                if c != c0 {
                    let node = self.children@[c];
                    assert(node.wf(ca0));
                    assert forall|d: int| 0 <= d < 26 implies prep_leaves_wf(#[trigger] node.children@[d]@, ca) by {
                        assert(prep_leaves_wf(node.children@[d]@, ca0));
                        lemma_leaves_grow(node.children@[d]@, ca0, ca);
                    }
                }
            }
            assert(suffix@ =~= f.subrange(2, f.len() as int));
            lemma_entered_holds(r0, *self, ca0, ca, f, id);
        }
        vstd::slice::slice_to_vec(suffix)
    }
}

/// The ids, strictly ascending.
pub fn sorted_ids(ids: &Vec<u32>) -> (res: Vec<u32>)
    ensures
        strictly_sorted(res@),
        res@.to_set() == ids@.to_set(),
{
    let mut out: Vec<u32> = Vec::new();
    let mut i: usize = 0;
    proof {
        assert(out@.to_set() =~= ids@.subrange(0, 0).to_set());
    }
    while i < ids.len()
        invariant
            i <= ids@.len(),
            strictly_sorted(out@),
            out@.to_set() == ids@.subrange(0, i as int).to_set(),
        decreases ids@.len() - i,
    {
        let one = vec![ids[i]];
        proof {
            assert(strictly_sorted(one@));
        }
        merge_into_sorted_vec(&mut out, one);
        proof {
            assert(ids@.subrange(0, i + 1) =~= ids@.subrange(0, i as int).push(ids@[i as int]));
            assert(one@.to_set() =~= set![ids@[i as int]]);
            lemma_push_to_set(ids@.subrange(0, i as int), ids@[i as int]);
        }
        i += 1;
    }
    proof {
        assert(ids@.subrange(0, i as int) =~= ids@);
    }
    out
}

/// A sorted heap of distinct values is finished: its real values come first, strictly
/// ascending.
pub proof fn lemma_sorted_distinct_finalized(s: Seq<u32>)
    requires
        sorted_seq(s),
        distinct_real(s),
    ensures
        finalized(s),
{
    assert forall|i: int, j: int| 0 <= i < j < s.len() implies s[i] < s[j] || s[j] == u32::MAX by {
        if s[i] == s[j] && s[j] != u32::MAX {
            lemma_two_places_count(s, i, j);
            assert(s.to_multiset().count(s[i]) <= 1);
        }
    }
}

/// The heap's values, sorted, in a heap of its own.
pub fn finished_heap<const S: usize>(heap: &FixedHeap<S>) -> (res: FixedHeap<S>)
    requires
        heap.wf(),
    ensures
        heap_finished(heap.arr@, res.arr@),
        finalized(res.arr@),
        forall|xs: Set<u32>| #[trigger]
            keeps_smallest(heap.arr@, xs) ==> smallest_sorted(real_values(res.arr@), xs, S as int),
{
    let mut out = FixedHeap::<S> { arr: heap.arr.clone() };
    proof {
        assert(out.arr@ =~= heap.arr@);
    }
    out.sort();
    proof {
        assert forall|v: u32| v != u32::MAX implies #[trigger] out.arr@.to_multiset().count(v) <= 1 by {
            assert(heap.arr@.to_multiset().count(v) <= 1);
        }
        lemma_sorted_distinct_finalized(out.arr@);
        lemma_sorted_values_smallest(heap.arr@, out.arr@, S as int);
    }
    out
}

/// `b` is `a` sorted.
pub open spec fn heap_finished(a: Seq<u32>, b: Seq<u32>) -> bool {
    &&& b.len() == a.len()
    &&& sorted_seq(b)
    &&& b.to_multiset() == a.to_multiset()
}

/// The letters of the leaves' suffixes.
pub open spec fn suffix_keys(leaves: Seq<PrepLeaf>, char_arr: Seq<u8>) -> Seq<Seq<u8>> {
    leaves.map_values(|l: PrepLeaf| l.suffix.view_in(char_arr))
}

/// `res` is `prep` reordered by suffix, ties kept in place, with each leaf's ids ascending.
pub open spec fn finalized_leaves(prep: Seq<PrepLeaf>, res: Seq<TrieLeaf>, char_arr: Seq<u8>) -> bool {
    exists|order: Seq<usize>|
        #![trigger is_permutation(order, prep.len())]
        is_permutation(order, prep.len()) && in_key_order(suffix_keys(prep, char_arr), order)
            && res.len() == prep.len() && forall|k: int|
            0 <= k < res.len() ==> (#[trigger] res[k]).suffix == prep[order[k] as int].suffix
                && res[k].ids@.to_set() == prep[order[k] as int].ids@.to_set()
}

/// The pairs of a finished leaf's suffix and one of its ids.
pub open spec fn leaf_pairs(leaves: Seq<TrieLeaf>, char_arr: Seq<u8>) -> Set<(Seq<u8>, u32)> {
    Set::new(
        |p: (Seq<u8>, u32)|
            exists|i: int|
                #![trigger leaves[i]]
                0 <= i < leaves.len() && leaves[i].suffix.view_in(char_arr) == p.0
                    && leaves[i].ids@.contains(p.1),
    )
}

/// The leaves come in the order of their suffixes.
pub open spec fn leaves_in_order(leaves: Seq<TrieLeaf>, char_arr: Seq<u8>) -> bool {
    forall|i: int, j: int|
        0 <= i < j < leaves.len() ==> lex_lt(
            #[trigger] leaves[i].suffix.view_in(char_arr),
            #[trigger] leaves[j].suffix.view_in(char_arr),
        ) || leaves[i].suffix.view_in(char_arr) == leaves[j].suffix.view_in(char_arr)
}

/// Reordered leaves hold the same pairs, in the order of their suffixes.
proof fn lemma_finalized_leaves(prep: Seq<PrepLeaf>, res: Seq<TrieLeaf>, char_arr: Seq<u8>)
    requires
        finalized_leaves(prep, res, char_arr),
    ensures
        leaf_pairs(res, char_arr) == prep_leaf_pairs(prep, char_arr),
        leaves_in_order(res, char_arr),
{
    let order = choose|order: Seq<usize>|
        #![trigger is_permutation(order, prep.len())]
        is_permutation(order, prep.len()) && in_key_order(suffix_keys(prep, char_arr), order)
            && res.len() == prep.len() && forall|k: int|
            0 <= k < res.len() ==> (#[trigger] res[k]).suffix == prep[order[k] as int].suffix
                && res[k].ids@.to_set() == prep[order[k] as int].ids@.to_set();
    let keys = suffix_keys(prep, char_arr);
    assert forall|p: (Seq<u8>, u32)| leaf_pairs(res, char_arr).contains(p) <==> prep_leaf_pairs(
        prep,
        char_arr,
    ).contains(p) by {
        if leaf_pairs(res, char_arr).contains(p) {
            let k = choose|k: int|
                #![trigger res[k]]
                0 <= k < res.len() && res[k].suffix.view_in(char_arr) == p.0 && res[k].ids@.contains(p.1);
            let i = order[k] as int;
            assert(res[k].ids@.to_set().contains(p.1));
            assert(prep[i].ids@.to_set().contains(p.1));
            assert(prep[i].suffix.view_in(char_arr) == p.0);
        }
        if prep_leaf_pairs(prep, char_arr).contains(p) {
            let i = choose|i: int|
                #![trigger prep[i]]
                0 <= i < prep.len() && prep[i].suffix.view_in(char_arr) == p.0 && prep[i].ids@.contains(p.1);
            assert(lists(order, i));
            let k = choose|k: int| 0 <= k < order.len() && order[k] == i;
            assert(res[k].suffix == prep[i].suffix);
            assert(prep[i].ids@.to_set().contains(p.1));
            assert(res[k].ids@.to_set().contains(p.1));
            assert(res[k].suffix.view_in(char_arr) == p.0);
        }
    }
    assert(leaf_pairs(res, char_arr) =~= prep_leaf_pairs(prep, char_arr));
    assert forall|i: int, j: int| 0 <= i < j < res.len() implies lex_lt(
        #[trigger] res[i].suffix.view_in(char_arr),
        #[trigger] res[j].suffix.view_in(char_arr),
    ) || res[i].suffix.view_in(char_arr) == res[j].suffix.view_in(char_arr) by {
        assert(crate::sorting::key_before(keys, order[i] as int, order[j] as int));
        assert(keys[order[i] as int] == prep[order[i] as int].suffix.view_in(char_arr));
        assert(keys[order[j] as int] == prep[order[j] as int].suffix.view_in(char_arr));
    }
}

/// The finished trie holds the fragments `fs`: the root's sorted ids are the smallest ids of
/// the fragments, those of each letter the smallest ids of the fragments that start with it,
/// and the leaves under two letters, in the order of their suffixes, hold the tails of the
/// fragments that start with them, each with its id.
pub open spec fn root_holds<const S: usize>(
    root: TrieNodeRoot<S>,
    char_arr: Seq<u8>,
    fs: Set<(Seq<u8>, u32)>,
) -> bool {
    &&& smallest_sorted(real_values(root.out.arr@), frag_ids(fs), S as int)
    &&& forall|c: int|
        0 <= c < 26 ==> smallest_sorted(
            real_values(#[trigger] root.children@[c].out.arr@),
            frag_ids_under(fs, c),
            S as int,
        )
    &&& forall|c: int, d: int|
        0 <= c < 26 && 0 <= d < 26 ==> #[trigger] leaf_pairs(root.children@[c].children@[d].0@, char_arr)
            == frag_tails_under(fs, c, d)
    &&& forall|c: int, d: int|
        0 <= c < 26 && 0 <= d < 26 ==> leaves_in_order(
            #[trigger] root.children@[c].children@[d].0@,
            char_arr,
        )
}

/// The leaves, ordered by their suffixes with ties kept in place, each with its ids sorted.
pub fn finalize_leaves(leaves: &Vec<PrepLeaf>, char_array: &[u8]) -> (res: TrieLeaves)
    requires
        prep_leaves_wf(leaves@, char_array@),
    ensures
        res.wf(char_array@),
        finalized_leaves(leaves@, res.0@, char_array@),
        leaf_pairs(res.0@, char_array@) == prep_leaf_pairs(leaves@, char_array@),
        leaves_in_order(res.0@, char_array@),
{
    let mut keys: Vec<Vec<u8>> = Vec::new();
    let mut i: usize = 0;
    while i < leaves.len()
        invariant
            i <= leaves@.len(),
            keys@.len() == i,
            prep_leaves_wf(leaves@, char_array@),
            forall|a: int| 0 <= a < i ==> (#[trigger] keys@[a])@ == leaves@[a].suffix.view_in(char_array@),
        decreases leaves@.len() - i,
    {
        proof {
            assert(leaves@[i as int].wf(char_array@));
        }
        keys.push(leaves[i].suffix.cut(char_array));
        i += 1;
    }
    let order = stable_order(&keys);
    proof {
        assert(keys@.map_values(|k: Vec<u8>| k@) =~= suffix_keys(leaves@, char_array@));
    }
    let mut out: Vec<TrieLeaf> = Vec::new();
    let mut k: usize = 0;
    while k < order.len()
        invariant
            k <= order@.len(),
            is_permutation(order@, keys@.len()),
            keys@.len() == leaves@.len(),
            out@.len() == k,
            prep_leaves_wf(leaves@, char_array@),
            forall|a: int| 0 <= a < k ==> #[trigger] out@[a].wf(char_array@),
            forall|a: int|
                0 <= a < k ==> (#[trigger] out@[a]).suffix == leaves@[order@[a] as int].suffix
                    && out@[a].ids@.to_set() == leaves@[order@[a] as int].ids@.to_set(),
        decreases order@.len() - k,
    {
        let j = order[k];
        proof {
            assert(order@[k as int] < keys@.len());
            assert(leaves@[j as int].wf(char_array@));
        }
        let leaf = &leaves[j];
        out.push(TrieLeaf { suffix: leaf.suffix, ids: sorted_ids(&leaf.ids) });
        k += 1;
    }
    proof {
        assert(is_permutation(order@, leaves@.len()));
        lemma_finalized_leaves(leaves@, out@, char_array@);
    }
    TrieLeaves(out)
}

impl<const S: usize> PrepTrieL1<S> {
    /// The finished node: the heap sorted, and each group of leaves ordered by suffix with
    /// its ids ascending.
    pub fn finalize(&self, char_array: &[u8]) -> (res: TrieNodeL1<S>)
        requires
            self.wf(char_array@),
        ensures
            res.wf(char_array@),
            heap_finished(self.out.arr@, res.out.arr@),
            forall|xs: Set<u32>| #[trigger]
                keeps_smallest(self.out.arr@, xs) ==> smallest_sorted(real_values(res.out.arr@), xs, S as int),
            forall|d: int|
                0 <= d < 26 ==> finalized_leaves(
                    self.children@[d]@,
                    (#[trigger] res.children@[d]).0@,
                    char_array@,
                ),
    {
        let out = finished_heap(&self.out);
        let mut children: Vec<TrieLeaves> = Vec::new();
        let mut c: usize = 0;
        while c < 26
            invariant
                c <= 26,
                self.wf(char_array@),
                children@.len() == c,
                forall|k: int| 0 <= k < c ==> #[trigger] children@[k].wf(char_array@),
                forall|k: int|
                    0 <= k < c ==> finalized_leaves(
                        self.children@[k]@,
                        (#[trigger] children@[k]).0@,
                        char_array@,
                    ),
            decreases 26 - c,
        {
            proof {
                assert(prep_leaves_wf(self.children@[c as int]@, char_array@));
            }
            children.push(finalize_leaves(&self.children[c], char_array));
            c += 1;
        }
        TrieNodeL1 { children, out }
    }
}

impl<const S: usize> PrepTrieRoot<S> {
    /// The finished trie: every heap sorted, and each group of leaves ordered by suffix with
    /// its ids ascending; it holds the fragments that were entered.
    pub fn finalize(&self, char_array: &[u8]) -> (res: TrieNodeRoot<S>)
        requires
            self.wf(char_array@),
        ensures
            res.wf(char_array@),
            heap_finished(self.out.arr@, res.out.arr@),
            forall|c: int|
                0 <= c < 26 ==> heap_finished(
                    self.children@[c].out.arr@,
                    (#[trigger] res.children@[c]).out.arr@,
                ),
            forall|c: int, d: int|
                0 <= c < 26 && 0 <= d < 26 ==> finalized_leaves(
                    self.children@[c].children@[d]@,
                    (#[trigger] res.children@[c].children@[d]).0@,
                    char_array@,
                ),
            root_holds(res, char_array@, self.frags@),
    {
        let out = finished_heap(&self.out);
        let mut children: Vec<TrieNodeL1<S>> = Vec::new();
        let mut c: usize = 0;
        while c < 26
            invariant
                c <= 26,
                self.wf(char_array@),
                children@.len() == c,
                forall|k: int| 0 <= k < c ==> #[trigger] children@[k].wf(char_array@),
                forall|k: int|
                    0 <= k < c ==> heap_finished(
                        self.children@[k].out.arr@,
                        (#[trigger] children@[k]).out.arr@,
                    ),
                forall|k: int|
                    0 <= k < c ==> smallest_sorted(
                        real_values((#[trigger] children@[k]).out.arr@),
                        frag_ids_under(self.frags@, k),
                        S as int,
                    ),
                forall|k: int, d: int|
                    0 <= k < c && 0 <= d < 26 ==> finalized_leaves(
                        self.children@[k].children@[d]@,
                        (#[trigger] children@[k].children@[d]).0@,
                        char_array@,
                    ),
            decreases 26 - c,
        {
            proof {
                assert(self.children@[c as int].wf(char_array@));
                assert(keeps_smallest(self.children@[c as int].out.arr@, frag_ids_under(self.frags@, c as int)));
            }
            children.push(self.children[c].finalize(char_array));
            c += 1;
        }
        let res = TrieNodeRoot { children, out };
        proof {
            let ca = char_array@;
            assert forall|c: int, d: int| 0 <= c < 26 && 0 <= d < 26 implies #[trigger] leaf_pairs(
                res.children@[c].children@[d].0@,
                ca,
            ) == frag_tails_under(self.frags@, c, d) && leaves_in_order(res.children@[c].children@[d].0@, ca) by {
                assert(finalized_leaves(self.children@[c].children@[d]@, res.children@[c].children@[d].0@, ca));
                lemma_finalized_leaves(self.children@[c].children@[d]@, res.children@[c].children@[d].0@, ca);
            }
            assert forall|c: int| 0 <= c < 26 implies smallest_sorted(
                real_values(#[trigger] res.children@[c].out.arr@),
                frag_ids_under(self.frags@, c),
                S as int,
            ) by {
                assert(smallest_sorted(real_values(children@[c].out.arr@), frag_ids_under(self.frags@, c), S as int));
            }
            assert forall|c: int, d: int| 0 <= c < 26 && 0 <= d < 26 implies leaves_in_order(
                #[trigger] res.children@[c].children@[d].0@,
                ca,
            ) by {
                lemma_finalized_leaves(self.children@[c].children@[d]@, res.children@[c].children@[d].0@, ca);
            }
        }
        res
    }
}

/// The words that a trie can be built from: letters 0..26, at most 256 of them, of haystacks
/// whose index fits the id type.
pub open spec fn words_ok(idxed_words: Seq<IndexedWord>) -> bool {
    forall|k: int| 0 <= k < idxed_words.len() ==> {
        &&& letters(#[trigger] idxed_words[k].word@)
        &&& idxed_words[k].word@.len() <= MAX_QUERY_CHARS
        &&& idxed_words[k].outer_idx < u32::MAX
    }
}

/// The words at the indices `js`, those with at least one letter, each with the id of its
/// haystack.
pub open spec fn prefix_frags_of(ws: Seq<(Seq<u8>, usize)>, js: Set<int>) -> Set<(Seq<u8>, u32)> {
    Set::new(
        |p: (Seq<u8>, u32)|
            exists|j: int|
                #[trigger] js.contains(j) && 0 <= j < ws.len() && ws[j].0.len() > 0 && p == (
                    ws[j].0,
                    ws[j].1 as u32,
                ),
    )
}

/// The words at the indices `js`, each from every letter after its first that leaves at least
/// two letters, with the id of its haystack.
pub open spec fn inner_frags_of(ws: Seq<(Seq<u8>, usize)>, js: Set<int>) -> Set<(Seq<u8>, u32)> {
    Set::new(
        |p: (Seq<u8>, u32)|
            exists|j: int, si: int|
                #![trigger js.contains(j), ws[j].0.subrange(si, ws[j].0.len() as int)]
                js.contains(j) && 0 <= j < ws.len() && 1 <= si && si + 1 < ws[j].0.len() && p == (
                    ws[j].0.subrange(si, ws[j].0.len() as int),
                    ws[j].1 as u32,
                ),
    )
}

/// Every word with at least one letter, with the id of its haystack: what the prefix trie
/// holds.
pub open spec fn prefix_frags(ws: Seq<(Seq<u8>, usize)>) -> Set<(Seq<u8>, u32)> {
    prefix_frags_of(ws, Set::new(|j: int| 0 <= j < ws.len()))
}

/// Every word from every letter after its first that leaves at least two letters, with the id
/// of its haystack: what the trie of inner parts holds.
pub open spec fn inner_frags(ws: Seq<(Seq<u8>, usize)>) -> Set<(Seq<u8>, u32)> {
    inner_frags_of(ws, Set::new(|j: int| 0 <= j < ws.len()))
}

/// The word from each of the letters `1..hi`, with `id`.
pub open spec fn word_tails(w: Seq<u8>, id: u32, hi: int) -> Set<(Seq<u8>, u32)> {
    Set::new(
        |p: (Seq<u8>, u32)|
            exists|si: int| #![trigger w.subrange(si, w.len() as int)]
                1 <= si < hi && p == (w.subrange(si, w.len() as int), id),
    )
}

/// The indices that `order` lists from position `t` on.
pub open spec fn placed(order: Seq<usize>, t: int) -> Set<int> {
    Set::new(|j: int| exists|k: int| t <= k < order.len() && #[trigger] order[k] == j)
}

proof fn lemma_placed_step(order: Seq<usize>, t: int)
    requires
        0 < t <= order.len(),
    ensures
        placed(order, t - 1) == placed(order, t).insert(order[t - 1] as int),
{
    assert forall|j: int| #[trigger] placed(order, t - 1).contains(j) <==> placed(order, t).insert(
        order[t - 1] as int,
    ).contains(j) by {
        if placed(order, t).contains(j) {
            let k = choose|k: int| t <= k < order.len() && #[trigger] order[k] == j;
            assert(order[k] == j);
        }
        if j == order[t - 1] {
            assert(order[t - 1] == j);
        }
    }
    assert(placed(order, t - 1) =~= placed(order, t).insert(order[t - 1] as int));
}

proof fn lemma_frags_of_step(ws: Seq<(Seq<u8>, usize)>, js: Set<int>, j: int)
    requires
        0 <= j < ws.len(),
    ensures
        prefix_frags_of(ws, js.insert(j)) == (if ws[j].0.len() > 0 {
            prefix_frags_of(ws, js).insert((ws[j].0, ws[j].1 as u32))
        } else {
            prefix_frags_of(ws, js)
        }),
        inner_frags_of(ws, js.insert(j)) == inner_frags_of(ws, js).union(
            word_tails(ws[j].0, ws[j].1 as u32, ws[j].0.len() - 1),
        ),
{
    let js2 = js.insert(j);
    let rhs = if ws[j].0.len() > 0 {
        prefix_frags_of(ws, js).insert((ws[j].0, ws[j].1 as u32))
    } else {
        prefix_frags_of(ws, js)
    };
    assert forall|p: (Seq<u8>, u32)| prefix_frags_of(ws, js2).contains(p) <==> rhs.contains(p) by {
        assert(js2.contains(j));
        if prefix_frags_of(ws, js).contains(p) {
            let i = choose|i: int|
                #[trigger] js.contains(i) && 0 <= i < ws.len() && ws[i].0.len() > 0 && p == (
                    ws[i].0,
                    ws[i].1 as u32,
                );
            assert(js2.contains(i));
        }
        if prefix_frags_of(ws, js2).contains(p) {
            let i = choose|i: int|
                #[trigger] js2.contains(i) && 0 <= i < ws.len() && ws[i].0.len() > 0 && p == (
                    ws[i].0,
                    ws[i].1 as u32,
                );
            if i != j {
                assert(js.contains(i));
            }
        }
    }
    assert(prefix_frags_of(ws, js2) =~= rhs);
    let w = ws[j].0;
    let id = ws[j].1 as u32;
    let tails = word_tails(w, id, w.len() - 1);
    assert forall|p: (Seq<u8>, u32)| inner_frags_of(ws, js2).contains(p) <==> inner_frags_of(
        ws,
        js,
    ).union(tails).contains(p) by {
        assert(js2.contains(j));
        if inner_frags_of(ws, js).contains(p) {
            let (i, si) = choose|i: int, si: int|
                #![trigger js.contains(i), ws[i].0.subrange(si, ws[i].0.len() as int)]
                js.contains(i) && 0 <= i < ws.len() && 1 <= si && si + 1 < ws[i].0.len() && p == (
                    ws[i].0.subrange(si, ws[i].0.len() as int),
                    ws[i].1 as u32,
                );
            assert(js2.contains(i));
            assert(inner_frags_of(ws, js2).contains(p));
        }
        if tails.contains(p) {
            let si = choose|si: int| #![trigger w.subrange(si, w.len() as int)]
                1 <= si < w.len() - 1 && p == (w.subrange(si, w.len() as int), id);
            assert(ws[j].0.subrange(si, ws[j].0.len() as int) == w.subrange(si, w.len() as int));
            assert(inner_frags_of(ws, js2).contains(p));
        }
        if inner_frags_of(ws, js2).contains(p) {
            let (i, si) = choose|i: int, si: int|
                #![trigger js2.contains(i), ws[i].0.subrange(si, ws[i].0.len() as int)]
                js2.contains(i) && 0 <= i < ws.len() && 1 <= si && si + 1 < ws[i].0.len() && p == (
                    ws[i].0.subrange(si, ws[i].0.len() as int),
                    ws[i].1 as u32,
                );
            if i != j {
                assert(js.contains(i));
                assert(inner_frags_of(ws, js).contains(p));
            } else {
                assert(w.subrange(si, w.len() as int) == ws[i].0.subrange(si, ws[i].0.len() as int));
                assert(tails.contains(p));
            }
        }
    }
    assert(inner_frags_of(ws, js2) =~= inner_frags_of(ws, js).union(tails));
}

proof fn lemma_word_tails_step(w: Seq<u8>, id: u32, hi: int)
    ensures
        hi >= 1 ==> word_tails(w, id, hi + 1) == word_tails(w, id, hi).insert(
            (w.subrange(hi, w.len() as int), id),
        ),
        hi <= 1 ==> word_tails(w, id, hi) == Set::<(Seq<u8>, u32)>::empty(),
{
    if hi >= 1 {
        assert forall|p: (Seq<u8>, u32)| word_tails(w, id, hi + 1).contains(p) <==> word_tails(
            w,
            id,
            hi,
        ).insert((w.subrange(hi, w.len() as int), id)).contains(p) by {
            if word_tails(w, id, hi + 1).contains(p) {
                let si = choose|si: int| #![trigger w.subrange(si, w.len() as int)]
                    1 <= si < hi + 1 && p == (w.subrange(si, w.len() as int), id);
                if si < hi {
                    assert(word_tails(w, id, hi).contains(p));
                }
            }
            if word_tails(w, id, hi).contains(p) {
                let si = choose|si: int| #![trigger w.subrange(si, w.len() as int)]
                    1 <= si < hi && p == (w.subrange(si, w.len() as int), id);
                assert(word_tails(w, id, hi + 1).contains(p));
            }
            if p == (w.subrange(hi, w.len() as int), id) {
                assert(word_tails(w, id, hi + 1).contains(p));
            }
        }
        assert(word_tails(w, id, hi + 1) =~= word_tails(w, id, hi).insert(
            (w.subrange(hi, w.len() as int), id),
        ));
    }
    if hi <= 1 {
        assert(word_tails(w, id, hi) =~= Set::<(Seq<u8>, u32)>::empty());
    }
}

proof fn lemma_frags_of_all(ws: Seq<(Seq<u8>, usize)>, js: Set<int>)
    requires
        forall|j: int| 0 <= j < ws.len() ==> #[trigger] js.contains(j),
    ensures
        prefix_frags_of(ws, js) == prefix_frags(ws),
        inner_frags_of(ws, js) == inner_frags(ws),
{
    let all = Set::new(|j: int| 0 <= j < ws.len());
    assert forall|p: (Seq<u8>, u32)| prefix_frags_of(ws, js).contains(p) <==> prefix_frags_of(
        ws,
        all,
    ).contains(p) by {
        if prefix_frags_of(ws, js).contains(p) {
            let i = choose|i: int|
                #[trigger] js.contains(i) && 0 <= i < ws.len() && ws[i].0.len() > 0 && p == (
                    ws[i].0,
                    ws[i].1 as u32,
                );
            assert(all.contains(i));
        }
        if prefix_frags_of(ws, all).contains(p) {
            let i = choose|i: int|
                #[trigger] all.contains(i) && 0 <= i < ws.len() && ws[i].0.len() > 0 && p == (
                    ws[i].0,
                    ws[i].1 as u32,
                );
            assert(js.contains(i));
        }
    }
    assert(prefix_frags_of(ws, js) =~= prefix_frags(ws));
    assert forall|p: (Seq<u8>, u32)| inner_frags_of(ws, js).contains(p) <==> inner_frags_of(
        ws,
        all,
    ).contains(p) by {
        if inner_frags_of(ws, js).contains(p) {
            let (i, si) = choose|i: int, si: int|
                #![trigger js.contains(i), ws[i].0.subrange(si, ws[i].0.len() as int)]
                js.contains(i) && 0 <= i < ws.len() && 1 <= si && si + 1 < ws[i].0.len() && p == (
                    ws[i].0.subrange(si, ws[i].0.len() as int),
                    ws[i].1 as u32,
                );
            assert(all.contains(i));
            assert(inner_frags_of(ws, all).contains(p));
        }
        if inner_frags_of(ws, all).contains(p) {
            let (i, si) = choose|i: int, si: int|
                #![trigger all.contains(i), ws[i].0.subrange(si, ws[i].0.len() as int)]
                all.contains(i) && 0 <= i < ws.len() && 1 <= si && si + 1 < ws[i].0.len() && p == (
                    ws[i].0.subrange(si, ws[i].0.len() as int),
                    ws[i].1 as u32,
                );
            assert(js.contains(i));
            assert(inner_frags_of(ws, js).contains(p));
        }
    }
    assert(inner_frags_of(ws, js) =~= inner_frags(ws));
}

/// How many letters the words hold together.
pub open spec fn entry_letters(ws: Seq<(Seq<u8>, usize)>) -> int
    decreases ws.len(),
{
    if ws.len() == 0 {
        0
    } else {
        entry_letters(ws.drop_last()) + ws.last().0.len()
    }
}

/// How many letters the words at the indices `order` hold together.
pub open spec fn letters_in_order(ws: Seq<(Seq<u8>, usize)>, order: Seq<usize>) -> int
    decreases order.len(),
{
    if order.len() == 0 {
        0
    } else {
        letters_in_order(ws, order.drop_last()) + ws[order.last() as int].0.len()
    }
}

proof fn lemma_letters_nonneg(ws: Seq<(Seq<u8>, usize)>, order: Seq<usize>)
    ensures
        letters_in_order(ws, order) >= 0,
    decreases order.len(),
{
    if order.len() > 0 {
        lemma_letters_nonneg(ws, order.drop_last());
    }
}

proof fn lemma_letters_remove(ws: Seq<(Seq<u8>, usize)>, order: Seq<usize>, p: int)
    requires
        0 <= p < order.len(),
    ensures
        letters_in_order(ws, order) == letters_in_order(ws, order.remove(p)) + ws[order[p] as int].0.len(),
    decreases order.len(),
{
    if p == order.len() - 1 {
        assert(order.remove(p) =~= order.drop_last());
    } else {
        lemma_letters_remove(ws, order.drop_last(), p);
        assert(order.drop_last().remove(p) =~= order.remove(p).drop_last());
        assert(order.remove(p).last() == order.last());
    }
}

proof fn lemma_letters_prefix(ws: Seq<(Seq<u8>, usize)>, order: Seq<usize>)
    requires
        ws.len() > 0,
        forall|k: int| 0 <= k < order.len() ==> (#[trigger] order[k]) < ws.len() - 1,
    ensures
        letters_in_order(ws, order) == letters_in_order(ws.drop_last(), order),
    decreases order.len(),
{
    if order.len() > 0 {
        lemma_letters_prefix(ws, order.drop_last());
        assert(order[order.len() - 1] < ws.len() - 1);
    }
}

/// Taking the words in any order, they hold the same letters.
proof fn lemma_letters_permuted(ws: Seq<(Seq<u8>, usize)>, order: Seq<usize>)
    requires
        is_permutation(order, ws.len()),
    ensures
        letters_in_order(ws, order) == entry_letters(ws),
    decreases ws.len(),
{
    let n = ws.len() as int;
    if n > 0 {
        assert(lists(order, n - 1));
        let p = choose|p: int| 0 <= p < order.len() && order[p] == n - 1;
        let o2 = order.remove(p);
        lemma_letters_remove(ws, order, p);
        assert forall|k: int| 0 <= k < o2.len() implies (#[trigger] o2[k]) < n - 1 by {
            let a = if k < p { k } else { k + 1 };
            assert(o2[k] == order[a]);
            assert(a != p);
            assert(order[a] < n);
        }
        assert forall|k: int| 0 <= k < n - 1 implies #[trigger] lists(o2, k) by {
            assert(lists(order, k));
            let a = choose|a: int| 0 <= a < order.len() && order[a] == k;
            assert(a != p);
            if a < p {
                assert(o2[a] == k);
            } else {
                assert(o2[a - 1] == k);
            }
        }
        assert(o2.no_duplicates()) by {
            assert forall|i: int, j: int| 0 <= i < o2.len() && 0 <= j < o2.len() && i != j implies o2[i] != o2[j] by {
                let a = if i < p { i } else { i + 1 };
                let b = if j < p { j } else { j + 1 };
                assert(o2[i] == order[a]);
                assert(o2[j] == order[b]);
            }
        }
        lemma_letters_prefix(ws, o2);
        lemma_letters_permuted(ws.drop_last(), o2);
    }
}

impl<const S: usize> CustomTrie<S> {
    /// Builds the prefix trie and the trie of inner parts from the words, taken in reverse
    /// order of their suffixes, sharing the letters of equal suffix ends.
    pub fn new(idxed_words: Vec<IndexedWord>) -> (res: Self)
        requires
            S > 0,
            words_ok(idxed_words@),
            entry_letters(word_entries(idxed_words@)) + MAX_QUERY_CHARS <= u32::MAX,
        ensures
            res.wf(),
            root_holds(res.prefix_tree, res.char_array@, prefix_frags(word_entries(idxed_words@))),
            root_holds(res.inner_tree, res.char_array@, inner_frags(word_entries(idxed_words@))),
    {
        let ghost ws = word_entries(idxed_words@);
        let n = idxed_words.len();
        let mut keys: Vec<Vec<u8>> = Vec::new();
        let mut i: usize = 0;
        while i < n
            invariant
                n == idxed_words@.len(),
                i <= n,
                keys@.len() == i,
            decreases n - i,
        {
            keys.push(vstd::slice::slice_to_vec(get_suffix(idxed_words[i].word.as_slice())));
            i += 1;
        }
        let order = stable_order(&keys);
        let mut char_array: Vec<u8> = Vec::new();
        let mut last_suff: Vec<u8> = Vec::new();
        let mut prep_tree = PrepTrieRoot::<S>::new();
        let mut inner_prep = PrepTrieRoot::<S>::new();
        let mut t: usize = n;
        proof {
            assert(order@.take(n as int) =~= order@);
            lemma_letters_permuted(ws, order@);
            assert(char_array@.subrange(0, 0) =~= last_suff@);
            let none = placed(order@, n as int);
            assert forall|p: (Seq<u8>, u32)| !prefix_frags_of(ws, none).contains(p) by {
                if prefix_frags_of(ws, none).contains(p) {
                    let i = choose|i: int|
                        #[trigger] none.contains(i) && 0 <= i < ws.len() && ws[i].0.len() > 0 && p == (
                            ws[i].0,
                            ws[i].1 as u32,
                        );
                    let k = choose|k: int| n <= k < order@.len() && #[trigger] order@[k] == i;
                }
            }
            assert forall|p: (Seq<u8>, u32)| !inner_frags_of(ws, none).contains(p) by {
                if inner_frags_of(ws, none).contains(p) {
                    let (i, si) = choose|i: int, si: int|
                        #![trigger none.contains(i), ws[i].0.subrange(si, ws[i].0.len() as int)]
                        none.contains(i) && 0 <= i < ws.len() && 1 <= si && si + 1 < ws[i].0.len() && p == (
                            ws[i].0.subrange(si, ws[i].0.len() as int),
                            ws[i].1 as u32,
                        );
                    let k = choose|k: int| n <= k < order@.len() && #[trigger] order@[k] == i;
                }
            }
            assert(prefix_frags_of(ws, none) =~= prep_tree.frags@);
            assert(inner_frags_of(ws, none) =~= inner_prep.frags@);
        }
        while t > 0
            invariant
                S > 0,
                ws == word_entries(idxed_words@),
                prep_tree.frags@ == prefix_frags_of(ws, placed(order@, t as int)),
                inner_prep.frags@ == inner_frags_of(ws, placed(order@, t as int)),
                n == idxed_words@.len(),
                entry_letters(ws) + MAX_QUERY_CHARS <= u32::MAX,
                char_array@.len() + letters_in_order(ws, order@.take(t as int)) <= entry_letters(ws),
                words_ok(idxed_words@),
                is_permutation(order@, keys@.len()),
                keys@.len() == n,
                t <= n,
                prep_tree.wf(char_array@),
                inner_prep.wf(char_array@),
                ends_with(char_array@, last_suff@),
            decreases t,
        {
            let j = order[t - 1];
            proof {
                assert(order@[t - 1] < keys@.len());
            }
            let idxed_word = &idxed_words[j];
            proof {
                assert(letters(idxed_words@[j as int].word@));
            }
            let wl = idxed_word.word.len();
            let ghost ca0 = char_array@;
            let ghost w = idxed_word.word@;
            let ghost id = idxed_word.outer_idx as u32;
            let ghost inner0 = inner_prep.frags@;
            proof {
                assert(ws[j as int] == (w, idxed_word.outer_idx));
                lemma_placed_step(order@, t as int);
                lemma_frags_of_step(ws, placed(order@, t as int), j as int);
                lemma_word_tails_step(w, id, 1);
                assert(inner0.union(word_tails(w, id, 1)) =~= inner0);
                assert(order@.take(t as int).drop_last() =~= order@.take(t - 1));
                assert(order@.take(t as int).last() == j);
                lemma_letters_nonneg(ws, order@.take(t - 1));
                assert(letters_in_order(ws, order@.take(t as int)) == letters_in_order(ws, order@.take(t - 1)) + wl);
            }
            if wl > 0 {
                last_suff = prep_tree.extend(idxed_word, &mut char_array, 0, last_suff.as_slice());
                let ghost ca1 = char_array@;
                proof {
                    lemma_root_grow(inner_prep, ca0, ca1);
                    assert(w.subrange(0, wl as int) =~= w);
                }
                let mut si: usize = 1;
                while si < wl - 1
                    invariant
                        S > 0,
                        1 <= si,
                        si <= wl - 1 || si == 1,
                        w == idxed_word.word@,
                        id == idxed_word.outer_idx as u32,
                        inner_prep.frags@ == inner0.union(word_tails(w, id, si as int)),
                        wl >= 1,
                        wl == idxed_word.word@.len(),
                        wl <= MAX_QUERY_CHARS,
                        letters(idxed_word.word@),
                        idxed_word.outer_idx < u32::MAX,
                        wl >= 2 ==> last_suff@ == idxed_word.word@.subrange(2, wl as int),
                        char_array@ == ca1,
                        ca1.len() + MAX_QUERY_CHARS <= u32::MAX,
                        inner_prep.wf(char_array@),
                        ends_with(char_array@, last_suff@),
                    decreases wl - si,
                {
                    proof {
                        let w = idxed_word.word@;
                        let sfx = w.subrange(si + 2, wl as int);
                        let ls = last_suff@;
                        assert(ls.subrange(ls.len() - sfx.len(), ls.len() as int) =~= sfx);
                    }
                    let _ = inner_prep.extend(idxed_word, &mut char_array, si, last_suff.as_slice());
                    proof {
                        lemma_word_tails_step(w, id, si as int);
                        assert(inner0.union(word_tails(w, id, si as int)).insert(
                            (w.subrange(si as int, wl as int), id),
                        ) =~= inner0.union(word_tails(w, id, si + 1)));
                    }
                    si += 1;
                }
                proof {
                    if wl >= 2 {
                        assert(si == wl - 1);
                    } else {
                        lemma_word_tails_step(w, id, (wl - 1) as int);
                        lemma_word_tails_step(w, id, si as int);
                        assert(inner0.union(word_tails(w, id, wl - 1)) =~= inner0);
                    }
                }
            } else {
                proof {
                    lemma_word_tails_step(w, id, wl - 1);
                    assert(inner0.union(word_tails(w, id, wl - 1)) =~= inner0);
                }
            }
            proof {
                assert(order@.take(t as int).drop_last() =~= order@.take(t - 1));
                assert(order@.take(t as int).last() == j);
            }
            t -= 1;
        }
        proof {
            assert forall|j: int| 0 <= j < ws.len() implies #[trigger] placed(order@, 0).contains(j) by {
                assert(lists(order@, j));
                let k = choose|k: int| 0 <= k < order@.len() && order@[k] == j;
                assert(order@[k] == j);
            }
            lemma_frags_of_all(ws, placed(order@, 0));
        }
        let prefix_tree = prep_tree.finalize(char_array.as_slice());
        let inner_tree = inner_prep.finalize(char_array.as_slice());
        CustomTrie { prefix_tree, inner_tree, char_array }
    }
}

} // verus!
