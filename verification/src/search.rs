use vstd::prelude::*;
use crate::fixed_heap::{lemma_real_values_padding, real_values, FixedHeap};
use crate::words::{StackWordSet, MAX_QUERY_CHARS, MAX_QUERY_WORDS};
use crate::merging::{
    log_search, logfound, merge_box_into_sorted_vec, merge_into_sorted_vec, sorted,
    strictly_sorted, SearchPredicate,
};

verus! {

/// The number of leading letters that the trie levels branch on.
pub const BRANCHING_LEVELS: usize = 2;

/// Compares `a` with `b` on their common length: `true` where `a` is smaller at the first
/// difference, `false` where it is larger, and `breaker` where one is a prefix of the other.
pub open spec fn trunc_less(a: Seq<u8>, b: Seq<u8>, breaker: bool) -> bool
    decreases a.len(),
{
    if a.len() == 0 || b.len() == 0 {
        breaker
    } else if a[0] > b[0] {
        false
    } else if a[0] < b[0] {
        true
    } else {
        trunc_less(a.drop_first(), b.drop_first(), breaker)
    }
}

/// Dropping a common prefix leaves the comparison unchanged.
proof fn lemma_trunc_less_skip(a: Seq<u8>, b: Seq<u8>, breaker: bool, i: int)
    requires
        0 <= i <= a.len(),
        i <= b.len(),
        forall|k: int| 0 <= k < i ==> a[k] == b[k],
    ensures
        trunc_less(a, b, breaker) == trunc_less(
            a.subrange(i, a.len() as int),
            b.subrange(i, b.len() as int),
            breaker,
        ),
    decreases i,
{
    if i == 0 {
        assert(a.subrange(0, a.len() as int) =~= a);
        assert(b.subrange(0, b.len() as int) =~= b);
    } else {
        let a1 = a.drop_first();
        let b1 = b.drop_first();
        lemma_trunc_less_skip(a1, b1, breaker, i - 1);
        assert(a1.subrange(i - 1, a1.len() as int) =~= a.subrange(i, a.len() as int));
        assert(b1.subrange(i - 1, b1.len() as int) =~= b.subrange(i, b.len() as int));
    }
}

/// A word of the trie's leaves, held as a stretch of a shared letter array.
#[derive(Debug, Clone, Copy, PartialEq, Eq, Structural)]
pub struct WordViaCharr {
    pub start_idx: u32,
    pub len: u16,
}

impl WordViaCharr {
    /// The stretch lies inside the letter array.
    pub open spec fn fits(self, char_arr: Seq<u8>) -> bool {
        self.start_idx + self.len <= char_arr.len()
    }

    /// The letters of the stretch.
    pub open spec fn view_in(self, char_arr: Seq<u8>) -> Seq<u8> {
        char_arr.subrange(self.start_idx as int, self.start_idx + self.len)
    }

    /// The letters of the stretch.
    pub fn cut(&self, char_arr: &[u8]) -> (res: Vec<u8>)
        requires
            self.fits(char_arr@),
        ensures
            res@ == self.view_in(char_arr@),
    {
        let n = char_arr.len();
        let su = self.start_idx as usize;
        let end = su + self.len as usize;
        let mut out: Vec<u8> = Vec::new();
        let mut i = su;
        while i < end
            invariant
                su <= i <= end <= char_arr@.len(),
                out@ == char_arr@.subrange(su as int, i as int),
            decreases end - i,
        {
            out.push(char_arr[i]);
            i += 1;
        }
        out
    }

    /// The stretch is smaller than `comp` at their first difference.
    pub fn under(&self, char_arr: &[u8], comp: &[u8]) -> (res: bool)
        requires
            self.fits(char_arr@),
        ensures
            res == trunc_less(self.view_in(char_arr@), comp@, false),
    {
        self.compare_meta(char_arr, comp, false)
    }

    /// The stretch is not larger than `comp` at their first difference.
    pub fn not_over(&self, char_arr: &[u8], comp: &[u8]) -> (res: bool)
        requires
            self.fits(char_arr@),
        ensures
            res == trunc_less(self.view_in(char_arr@), comp@, true),
    {
        self.compare_meta(char_arr, comp, true)
    }

    /// Compares the stretch with `comp` on their common length, `breaker` on a tie.
    pub fn compare_meta(&self, char_arr: &[u8], comp: &[u8], breaker: bool) -> (res: bool)
        requires
            self.fits(char_arr@),
        ensures
            res == trunc_less(self.view_in(char_arr@), comp@, breaker),
    {
        let my_size = self.len as usize;
        let su = self.start_idx as usize;
        let ghost mine = self.view_in(char_arr@);
        let n = char_arr.len();
        let mut i: usize = 0;
        while i < comp.len()
            invariant
                n == char_arr@.len(),
                su == self.start_idx,
                my_size == self.len,
                mine == self.view_in(char_arr@),
                my_size == mine.len(),
                su + my_size <= char_arr@.len(),
                mine == char_arr@.subrange(su as int, su + my_size),
                i <= comp@.len(),
                i <= my_size,
                forall|k: int| 0 <= k < i ==> mine[k] == comp@[k],
            ensures
                i == comp@.len() || i == my_size,
                forall|k: int| 0 <= k < i ==> mine[k] == comp@[k],
                i <= comp@.len(),
                i <= my_size,
            decreases comp@.len() - i,
        {
            if i >= my_size {
                break;
            }
            let mine_i = char_arr[su + i];
            if mine_i > comp[i] {
                proof {
                    lemma_trunc_less_skip(mine, comp@, breaker, i as int);
                    let a = mine.subrange(i as int, mine.len() as int);
                    assert(a[0] == mine_i);
                }
                return false;
            }
            if mine_i < comp[i] {
                proof {
                    lemma_trunc_less_skip(mine, comp@, breaker, i as int);
                    let a = mine.subrange(i as int, mine.len() as int);
                    assert(a[0] == mine_i);
                }
                return true;
            }
            i += 1;
        }
        proof {
            lemma_trunc_less_skip(mine, comp@, breaker, i as int);
        }
        breaker
    }
}

/// The letters after the ones the trie levels branch on.
pub open spec fn suffix_of(word: Seq<u8>) -> Seq<u8> {
    if word.len() >= BRANCHING_LEVELS {
        word.subrange(BRANCHING_LEVELS as int, word.len() as int)
    } else {
        Seq::empty()
    }
}

/// The letters after the ones the trie levels branch on, or none for a shorter word.
pub fn get_suffix(word: &[u8]) -> (res: &[u8])
    ensures
        res@ == suffix_of(word@),
{
    if word.len() >= BRANCHING_LEVELS {
        vstd::slice::slice_subrange(word, BRANCHING_LEVELS, word.len())
    } else {
        vstd::slice::slice_subrange(word, 0, 0)
    }
}

/// The length of `suffix` where `word` ends with it, else 0.
pub fn get_overlap(suffix: &[u8], word: &[u8]) -> (res: usize)
    ensures
        res == (if suffix@.len() <= word@.len() && word@.subrange(
            word@.len() - suffix@.len(),
            word@.len() as int,
        ) == suffix@ {
            suffix@.len()
        } else {
            0
        }),
{
    if suffix.len() > word.len() {
        return 0;
    }
    let wl = word.len();
    let off = wl - suffix.len();
    let mut i: usize = 0;
    while i < suffix.len()
        invariant
            wl == word@.len(),
            off + suffix@.len() == word@.len(),
            i <= suffix@.len(),
            forall|k: int| 0 <= k < i ==> word@[off + k] == suffix@[k],
        decreases suffix@.len() - i,
    {
        if word[off + i] != suffix[i] {
            proof {
                assert(word@.subrange(off as int, word@.len() as int)[i as int] != suffix@[i as int]);
            }
            return 0;
        }
        i += 1;
    }
    proof {
        assert(word@.subrange(off as int, word@.len() as int) =~= suffix@);
    }
    suffix.len()
}

/// The elements of `add` that `base` lacks, in their order.
pub open spec fn missing_from(base: Seq<u32>, add: Seq<u32>) -> Seq<u32> {
    add.filter(|x: u32| !base.contains(x))
}

/// Appends to the sorted `int_v` the elements of the sorted `add_v` that it lacks.
pub fn extend_sorted(int_v: &mut Vec<u32>, add_v: Vec<u32>)
    requires
        sorted(old(int_v)@),
        sorted(add_v@),
    ensures
        final(int_v)@ == old(int_v)@ + missing_from(old(int_v)@, add_v@),
{
    let ghost base = int_v@;
    let ghost pred = |x: u32| !base.contains(x);
    let mut i: usize = 0;
    let init_i_len = int_v.len();
    let mut last_ge: Option<usize> = None;
    let mut k: usize = 0;
    proof {
        reveal(Seq::filter);
        assert(add_v@.subrange(0, 0).filter(pred) =~= Seq::<u32>::empty());
        assert(int_v@ =~= base + Seq::<u32>::empty());
    }
    while k < add_v.len()
        invariant
            init_i_len == base.len(),
            sorted(base),
            sorted(add_v@),
            k <= add_v@.len(),
            i <= init_i_len,
            int_v@ == base + add_v@.subrange(0, k as int).filter(pred),
            pred == (|x: u32| !base.contains(x)),
            k == 0 ==> i == 0,
            k > 0 ==> forall|j: int| 0 <= j < i ==> #[trigger] base[j] < add_v@[k - 1],
            last_ge matches Some(g) ==> g < init_i_len,
        decreases add_v@.len() - k,
    {
        let add_e = add_v[k];
        proof {
            if k > 0 {
                assert(add_v@[k - 1] <= add_e);
            }
        }
        while i < init_i_len
            invariant
                i <= init_i_len == base.len(),
                int_v@ == base + add_v@.subrange(0, k as int).filter(pred),
                forall|j: int| 0 <= j < i ==> #[trigger] base[j] < add_e,
                last_ge matches Some(g) ==> g < init_i_len,
            ensures
                i < init_i_len ==> last_ge == Some(i) && base[i as int] >= add_e,
                forall|j: int| 0 <= j < i ==> #[trigger] base[j] < add_e,
                last_ge matches Some(g) ==> g < init_i_len,
            decreases init_i_len - i,
        {
            if int_v[i] < add_e {
                i += 1;
            } else {
                last_ge = Some(i);
                break;
            }
        }
        let push = match last_ge {
            None => true,
            Some(g) => add_e != int_v[g],
        };
        proof {
            if i < init_i_len {
                assert(base.contains(add_e) <== base[i as int] == add_e);
                if base[i as int] != add_e {
                    assert forall|j: int| 0 <= j < base.len() implies base[j] != add_e by {
                        if j > i {
                            assert(base[i as int] <= base[j]);
                        }
                    }
                }
            } else {
                assert forall|j: int| 0 <= j < base.len() implies base[j] != add_e by {
                    assert(base[j] < add_e);
                }
            }
            assert(push == pred(add_e));
            reveal(Seq::filter);
            assert(add_v@.subrange(0, k + 1).drop_last() =~= add_v@.subrange(0, k as int));
        }
        if push {
            int_v.push(add_e);
        }
        k += 1;
    }
    proof {
        assert(add_v@.subrange(0, k as int) =~= add_v@);
    }
}

/// The ids a query found: those of haystacks that hold the word, and those that hold a
/// longer word starting with it.
pub struct QueryResult {
    pub perfect: Vec<u32>,
    pub partial: Vec<u32>,
}

impl QueryResult {
    /// Both lists are strictly ascending.
    pub open spec fn wf(&self) -> bool {
        strictly_sorted(self.perfect@) && strictly_sorted(self.partial@)
    }

    /// The id is in one of the two lists.
    pub open spec fn has(&self, x: u32) -> bool {
        self.perfect@.contains(x) || self.partial@.contains(x)
    }

    /// Whether the id is in one of the two lists.
    pub fn includes(&self, x: u32) -> (res: bool)
        requires
            self.wf(),
        ensures
            res == self.has(x),
    {
        logfound(&self.partial, x) || logfound(&self.perfect, x)
    }
}

/// A leaf of the trie: a suffix, and the ids of the haystacks with a word that ends in it.
pub struct TrieLeaf {
    pub suffix: WordViaCharr,
    pub ids: Vec<u32>,
}

impl TrieLeaf {
    /// The suffix lies in the letter array and the ids are strictly ascending.
    pub open spec fn wf(&self, char_arr: Seq<u8>) -> bool {
        self.suffix.fits(char_arr) && strictly_sorted(self.ids@)
    }
}

/// The leaves below a second-level node, ordered by their suffixes.
pub struct TrieLeaves(pub Vec<TrieLeaf>);

/// Every leaf is well formed.
pub open spec fn leaves_wf(leaves: Seq<TrieLeaf>, char_arr: Seq<u8>) -> bool {
    forall|i: int| 0 <= i < leaves.len() ==> #[trigger] leaves[i].wf(char_arr)
}

/// The ids of the last leaf whose suffix has `n` letters, or none.
pub open spec fn last_exact_ids(leaves: Seq<TrieLeaf>, n: int) -> Seq<u32>
    decreases leaves.len(),
{
    if leaves.len() == 0 {
        Seq::empty()
    } else if leaves.last().suffix.len == n {
        leaves.last().ids@
    } else {
        last_exact_ids(leaves.drop_last(), n)
    }
}

/// The ids of the leaves whose suffix has more than `n` letters.
pub open spec fn longer_ids(leaves: Seq<TrieLeaf>, n: int) -> Set<u32>
    decreases leaves.len(),
{
    if leaves.len() == 0 {
        Set::empty()
    } else if leaves.last().suffix.len > n {
        longer_ids(leaves.drop_last(), n).union(leaves.last().ids@.to_set())
    } else {
        longer_ids(leaves.drop_last(), n)
    }
}

/// The ids of all the leaves.
pub open spec fn all_leaf_ids(leaves: Seq<TrieLeaf>) -> Set<u32>
    decreases leaves.len(),
{
    if leaves.len() == 0 {
        Set::empty()
    } else {
        all_leaf_ids(leaves.drop_last()).union(leaves.last().ids@.to_set())
    }
}

/// The ids that `within` holds, in their order.
pub open spec fn included(ids: Seq<u32>, within: QueryResult) -> Seq<u32> {
    ids.filter(|x: u32| within.has(x))
}

/// The ids, each kept where `within` holds it, of the last leaf whose suffix has `n`
/// letters, or none.
pub open spec fn last_exact_included(leaves: Seq<TrieLeaf>, n: int, within: QueryResult) -> Seq<u32>
    decreases leaves.len(),
{
    if leaves.len() == 0 {
        Seq::empty()
    } else if leaves.last().suffix.len == n {
        included(leaves.last().ids@, within)
    } else {
        last_exact_included(leaves.drop_last(), n, within)
    }
}

/// The ids that `within` holds of the leaves whose suffix does not have `n` letters.
pub open spec fn other_included(leaves: Seq<TrieLeaf>, n: int, within: QueryResult) -> Set<u32>
    decreases leaves.len(),
{
    if leaves.len() == 0 {
        Set::empty()
    } else if leaves.last().suffix.len != n {
        other_included(leaves.drop_last(), n, within).union(
            included(leaves.last().ids@, within).to_set(),
        )
    } else {
        other_included(leaves.drop_last(), n, within)
    }
}

/// The ids that `within` holds of all the leaves.
pub open spec fn all_included(leaves: Seq<TrieLeaf>, within: QueryResult) -> Set<u32>
    decreases leaves.len(),
{
    if leaves.len() == 0 {
        Set::empty()
    } else {
        all_included(leaves.drop_last(), within).union(
            included(leaves.last().ids@, within).to_set(),
        )
    }
}

/// The test "the leaf's suffix is below the word".
pub struct UnderWord<'a> {
    pub char_arr: &'a [u8],
    pub word: &'a [u8],
}

impl<'a> SearchPredicate<TrieLeaf> for UnderWord<'a> {
    open spec fn holds(&self, x: &TrieLeaf) -> bool {
        x.suffix.fits(self.char_arr@) && trunc_less(
            x.suffix.view_in(self.char_arr@),
            self.word@,
            false,
        )
    }

    fn test(&self, x: &TrieLeaf) -> (b: bool) {
        let n = self.char_arr.len();
        if x.suffix.start_idx as u64 + x.suffix.len as u64 <= n as u64 {
            x.suffix.under(self.char_arr, self.word)
        } else {
            false
        }
    }
}

/// The test "the leaf's suffix is not above the word".
pub struct NotOverWord<'a> {
    pub char_arr: &'a [u8],
    pub word: &'a [u8],
}

impl<'a> SearchPredicate<TrieLeaf> for NotOverWord<'a> {
    open spec fn holds(&self, x: &TrieLeaf) -> bool {
        x.suffix.fits(self.char_arr@) && trunc_less(
            x.suffix.view_in(self.char_arr@),
            self.word@,
            true,
        )
    }

    fn test(&self, x: &TrieLeaf) -> (b: bool) {
        let n = self.char_arr.len();
        if x.suffix.start_idx as u64 + x.suffix.len as u64 <= n as u64 {
            x.suffix.not_over(self.char_arr, self.word)
        } else {
            false
        }
    }
}

/// The stretch `l..r` of the leaves that a binary search gives for `word`: the leaf before
/// `l` is below the word and the one at `l` is not; the leaf before `r` (from `l` on) is
/// not above it and the one at `r` is.
pub open spec fn sides_of(leaves: Seq<TrieLeaf>, char_arr: Seq<u8>, word: Seq<u8>, l: int, r: int) -> bool {
    &&& 0 <= l <= r <= leaves.len()
    &&& l > 0 ==> trunc_less(leaves[l - 1].suffix.view_in(char_arr), word, false)
    &&& l < leaves.len() ==> !trunc_less(leaves[l].suffix.view_in(char_arr), word, false)
    &&& r > l ==> trunc_less(leaves[r - 1].suffix.view_in(char_arr), word, true)
    &&& r < leaves.len() ==> !trunc_less(leaves[r].suffix.view_in(char_arr), word, true)
}

/// What a query of the leaves gives: for the stretch of the binary search, the ids of the
/// last leaf that spells the word exactly, and those of the leaves with longer suffixes.
pub open spec fn leaves_query_result(
    leaves: Seq<TrieLeaf>,
    char_arr: Seq<u8>,
    word: Seq<u8>,
    res: QueryResult,
) -> bool {
    &&& res.wf()
    &&& exists|l: int, r: int|
        #![trigger sides_of(leaves, char_arr, word, l, r)]
        sides_of(leaves, char_arr, word, l, r) && res.perfect@ == last_exact_ids(
            leaves.subrange(l, r),
            word.len() as int,
        ) && res.partial@.to_set() == longer_ids(leaves.subrange(l, r), word.len() as int)
}

/// What a query of the leaves for inner matches gives: the ids of the stretch.
pub open spec fn leaves_inner_result(
    leaves: Seq<TrieLeaf>,
    char_arr: Seq<u8>,
    word: Seq<u8>,
    res: Seq<u32>,
) -> bool {
    &&& strictly_sorted(res)
    &&& exists|l: int, r: int|
        #![trigger sides_of(leaves, char_arr, word, l, r)]
        sides_of(leaves, char_arr, word, l, r) && res.to_set() == all_leaf_ids(
            leaves.subrange(l, r),
        )
}

/// What a query of the leaves within earlier matches gives: as an unfiltered query, with
/// only the ids that `within` holds, and the shorter suffixes counted as partial.
pub open spec fn leaves_filtered_result(
    leaves: Seq<TrieLeaf>,
    char_arr: Seq<u8>,
    word: Seq<u8>,
    within: QueryResult,
    res: QueryResult,
) -> bool {
    &&& res.wf()
    &&& exists|l: int, r: int|
        #![trigger sides_of(leaves, char_arr, word, l, r)]
        sides_of(leaves, char_arr, word, l, r) && res.perfect@ == last_exact_included(
            leaves.subrange(l, r),
            word.len() as int,
            within,
        ) && res.partial@.to_set() == other_included(
            leaves.subrange(l, r),
            word.len() as int,
            within,
        )
}

/// What a query of the leaves for inner matches within earlier ones gives.
pub open spec fn leaves_filtered_inner_result(
    leaves: Seq<TrieLeaf>,
    char_arr: Seq<u8>,
    word: Seq<u8>,
    within: QueryResult,
    res: Seq<u32>,
) -> bool {
    &&& strictly_sorted(res)
    &&& exists|l: int, r: int|
        #![trigger sides_of(leaves, char_arr, word, l, r)]
        sides_of(leaves, char_arr, word, l, r) && res.to_set() == all_included(
            leaves.subrange(l, r),
            within,
        )
}

/// Copies the ids that `within` holds, in their order.
pub fn filter_included(ids: &Vec<u32>, within: &QueryResult) -> (res: Vec<u32>)
    requires
        within.wf(),
        strictly_sorted(ids@),
    ensures
        res@ == included(ids@, *within),
        strictly_sorted(res@),
{
    let ghost pred = |x: u32| within.has(x);
    let mut out: Vec<u32> = Vec::new();
    let mut j: usize = 0;
    proof {
        reveal(Seq::filter);
        assert(ids@.subrange(0, 0).filter(pred) =~= Seq::<u32>::empty());
    }
    while j < ids.len()
        invariant
            within.wf(),
            strictly_sorted(ids@),
            j <= ids@.len(),
            pred == (|x: u32| within.has(x)),
            out@ == ids@.subrange(0, j as int).filter(pred),
            strictly_sorted(out@),
            forall|t: int| 0 <= t < out@.len() ==> exists|m: int| 0 <= m < j && ids@[m] == #[trigger] out@[t],
        decreases ids@.len() - j,
    {
        let x = ids[j];
        let keep = within.includes(x);
        proof {
            reveal(Seq::filter);
            assert(ids@.subrange(0, j + 1).drop_last() =~= ids@.subrange(0, j as int));
        }
        if keep {
            proof {
                assert forall|t: int| 0 <= t < out@.len() implies out@[t] < x by {
                    let m = choose|m: int| 0 <= m < j && #[trigger] ids@[m] == out@[t];
                    assert(ids@[m] < ids@[j as int]);
                }
            }
            out.push(x);
            proof {
                assert forall|t: int| 0 <= t < out@.len() implies exists|m: int| 0 <= m < j + 1 && #[trigger] ids@[m] == #[trigger] out@[t] by {
                    if t == out@.len() - 1 {
                        assert(ids@[j as int] == out@[t]);
                    } else {
                        let m = choose|m: int| 0 <= m < j && #[trigger] ids@[m] == out@[t];
                        assert(ids@[m] == out@[t]);
                    }
                }
            }
        }
        j += 1;
    }
    proof {
        assert(ids@.subrange(0, j as int) =~= ids@);
    }
    out
}

impl TrieLeaves {
    /// Every leaf is well formed.
    pub open spec fn wf(&self, char_arr: Seq<u8>) -> bool {
        leaves_wf(self.0@, char_arr)
    }

    /// The stretch of leaves whose suffixes agree with `word` on their common length, as
    /// two binary searches find it.
    pub fn sides(&self, char_arr: &[u8], word: &[u8]) -> (res: (usize, usize))
        requires
            self.wf(char_arr@),
        ensures
            sides_of(self.0@, char_arr@, word@, res.0 as int, res.1 as int),
    {
        let leaves = self.0.as_slice();
        let under = UnderWord { char_arr, word };
        let l = log_search(leaves, &under);
        let rest = vstd::slice::slice_subrange(leaves, l, leaves.len());
        let not_over = NotOverWord { char_arr, word };
        let r = log_search(rest, &not_over) + l;
        proof {
            let ls = self.0@;
            if l > 0 {
                assert(ls[l - 1].wf(char_arr@));
            }
            if r > l {
                assert(rest@[r - l - 1] == ls[r - 1]);
            }
            if r < ls.len() {
                assert(rest@[r - l] == ls[r as int]);
                assert(ls[r as int].wf(char_arr@));
            }
            if l < ls.len() {
                assert(ls[l as int].wf(char_arr@));
            }
        }
        (l, r)
    }

    /// The ids of the stretch that agrees with `word`: those of the last leaf that spells
    /// it exactly, and those of the leaves with longer suffixes.
    pub fn query(&self, word: &[u8], char_arr: &[u8]) -> (res: QueryResult)
        requires
            self.wf(char_arr@),
            word@.len() <= u16::MAX,
        ensures
            leaves_query_result(self.0@, char_arr@, word@, res),
    {
        let (l, r) = self.sides(char_arr, word);
        let unlen = word.len() as u16;
        let mut perfect: Vec<u32> = Vec::new();
        let mut partial: Vec<u32> = Vec::new();
        let mut j = l;
        proof {
            assert(self.0@.subrange(l as int, l as int) =~= Seq::<TrieLeaf>::empty());
            assert(partial@.to_set() =~= Set::<u32>::empty());
        }
        while j < r
            invariant
                l <= j <= r <= self.0@.len(),
                self.wf(char_arr@),
                unlen == word@.len(),
                perfect@ == last_exact_ids(self.0@.subrange(l as int, j as int), unlen as int),
                strictly_sorted(perfect@),
                partial@.to_set() == longer_ids(self.0@.subrange(l as int, j as int), unlen as int),
                strictly_sorted(partial@),
            decreases r - j,
        {
            let leaf = &self.0[j];
            proof {
                assert(self.0@[j as int].wf(char_arr@));
                let sub = self.0@.subrange(l as int, j + 1);
                assert(sub.drop_last() =~= self.0@.subrange(l as int, j as int));
                assert(sub.last() == *leaf);
            }
            if unlen == leaf.suffix.len {
                perfect = leaf.ids.clone();
                proof {
                    assert(perfect@ =~= leaf.ids@);
                }
            } else if unlen > leaf.suffix.len {
            } else {
                merge_box_into_sorted_vec(&mut partial, &leaf.ids);
            }
            j += 1;
        }
        let res = QueryResult { perfect, partial };
        proof {
            assert(sides_of(self.0@, char_arr@, word@, l as int, r as int));
        }
        res
    }

    /// The ids of all the leaves of the stretch that agrees with `word`.
    pub fn query_inners(&self, word: &[u8], char_arr: &[u8]) -> (res: Vec<u32>)
        requires
            self.wf(char_arr@),
        ensures
            leaves_inner_result(self.0@, char_arr@, word@, res@),
    {
        let (l, r) = self.sides(char_arr, word);
        let mut out: Vec<u32> = Vec::new();
        let mut j = l;
        proof {
            assert(self.0@.subrange(l as int, l as int) =~= Seq::<TrieLeaf>::empty());
            assert(out@.to_set() =~= Set::<u32>::empty());
        }
        while j < r
            invariant
                l <= j <= r <= self.0@.len(),
                self.wf(char_arr@),
                out@.to_set() == all_leaf_ids(self.0@.subrange(l as int, j as int)),
                strictly_sorted(out@),
            decreases r - j,
        {
            let leaf = &self.0[j];
            proof {
                assert(self.0@[j as int].wf(char_arr@));
                let sub = self.0@.subrange(l as int, j + 1);
                assert(sub.drop_last() =~= self.0@.subrange(l as int, j as int));
                assert(sub.last() == *leaf);
            }
            merge_box_into_sorted_vec(&mut out, &leaf.ids);
            j += 1;
        }
        proof {
            assert(sides_of(self.0@, char_arr@, word@, l as int, r as int));
        }
        out
    }

    /// As `query`, keeping only the ids that `within` holds, with the leaves whose suffix
    /// is shorter than the word counted as partial.
    pub fn query_prefiltered(&self, word: &[u8], char_arr: &[u8], within: &QueryResult) -> (res:
        QueryResult)
        requires
            self.wf(char_arr@),
            within.wf(),
            word@.len() <= u16::MAX,
        ensures
            leaves_filtered_result(self.0@, char_arr@, word@, *within, res),
    {
        let (l, r) = self.sides(char_arr, word);
        let unlen = word.len() as u16;
        let mut perfect: Vec<u32> = Vec::new();
        let mut partial: Vec<u32> = Vec::new();
        let mut j = l;
        proof {
            assert(self.0@.subrange(l as int, l as int) =~= Seq::<TrieLeaf>::empty());
            assert(partial@.to_set() =~= Set::<u32>::empty());
        }
        while j < r
            invariant
                l <= j <= r <= self.0@.len(),
                self.wf(char_arr@),
                within.wf(),
                unlen == word@.len(),
                perfect@ == last_exact_included(
                    self.0@.subrange(l as int, j as int),
                    unlen as int,
                    *within,
                ),
                strictly_sorted(perfect@),
                partial@.to_set() == other_included(
                    self.0@.subrange(l as int, j as int),
                    unlen as int,
                    *within,
                ),
                strictly_sorted(partial@),
            decreases r - j,
        {
            let leaf = &self.0[j];
            proof {
                assert(self.0@[j as int].wf(char_arr@));
                let sub = self.0@.subrange(l as int, j + 1);
                assert(sub.drop_last() =~= self.0@.subrange(l as int, j as int));
                assert(sub.last() == *leaf);
            }
            let lids = filter_included(&leaf.ids, within);
            if unlen == leaf.suffix.len {
                perfect = lids;
            } else {
                merge_into_sorted_vec(&mut partial, lids);
            }
            j += 1;
        }
        let res = QueryResult { perfect, partial };
        proof {
            assert(sides_of(self.0@, char_arr@, word@, l as int, r as int));
        }
        res
    }

    /// As `query_inners`, keeping only the ids that `within` holds.
    pub fn query_inners_prefiltered(&self, word: &[u8], char_arr: &[u8], within: &QueryResult) -> (res:
        Vec<u32>)
        requires
            self.wf(char_arr@),
            within.wf(),
        ensures
            leaves_filtered_inner_result(self.0@, char_arr@, word@, *within, res@),
    {
        let (l, r) = self.sides(char_arr, word);
        let mut out: Vec<u32> = Vec::new();
        let mut j = l;
        proof {
            assert(self.0@.subrange(l as int, l as int) =~= Seq::<TrieLeaf>::empty());
            assert(out@.to_set() =~= Set::<u32>::empty());
        }
        while j < r
            invariant
                l <= j <= r <= self.0@.len(),
                self.wf(char_arr@),
                within.wf(),
                out@.to_set() == all_included(self.0@.subrange(l as int, j as int), *within),
                strictly_sorted(out@),
            decreases r - j,
        {
            let leaf = &self.0[j];
            proof {
                assert(self.0@[j as int].wf(char_arr@));
                let sub = self.0@.subrange(l as int, j + 1);
                assert(sub.drop_last() =~= self.0@.subrange(l as int, j as int));
                assert(sub.last() == *leaf);
            }
            let lids = filter_included(&leaf.ids, within);
            merge_into_sorted_vec(&mut out, lids);
            j += 1;
        }
        proof {
            assert(sides_of(self.0@, char_arr@, word@, l as int, r as int));
        }
        out
    }
}

/// The values below the largest `u32` come first, strictly ascending.
pub open spec fn finalized(s: Seq<u32>) -> bool {
    forall|i: int, j: int| 0 <= i < j < s.len() ==> s[i] < s[j] || s[j] == u32::MAX
}

/// The leading values below the largest `u32`.
pub fn leading_values(arr: &Vec<u32>) -> (res: Vec<u32>)
    requires
        finalized(arr@),
    ensures
        res@ == real_values(arr@),
        strictly_sorted(res@),
{
    let mut out: Vec<u32> = Vec::new();
    let mut i: usize = 0;
    proof {
        assert(arr@.subrange(0, 0) =~= Seq::<u32>::empty());
        assert(arr@.subrange(0, arr@.len() as int) =~= arr@);
    }
    while i < arr.len()
        invariant_except_break
            out@ == real_values(arr@.subrange(0, i as int)),
        invariant
            arr@.subrange(0, arr@.len() as int) == arr@,
            finalized(arr@),
            i <= arr@.len(),
            out@ == arr@.subrange(0, i as int),
            forall|k: int| 0 <= k < i ==> arr@[k] < u32::MAX,
        ensures
            out@ == real_values(arr@),
            out@ == arr@.subrange(0, i as int),
            forall|k: int| 0 <= k < i ==> arr@[k] < u32::MAX,
        decreases arr@.len() - i,
    {
        let e = arr[i];
        if e < u32::MAX {
            out.push(e);
            proof {
                assert(arr@.subrange(0, i + 1).drop_last() =~= arr@.subrange(0, i as int));
                assert(arr@.subrange(0, i + 1) =~= arr@.subrange(0, i as int).push(e));
            }
            i += 1;
        } else {
            proof {
                assert forall|k: int| i <= k < arr@.len() implies arr@[k] == u32::MAX by {
                    if k > i {
                        assert(arr@[i as int] < arr@[k] || arr@[k] == u32::MAX);
                    }
                }
                lemma_real_values_padding(arr@, i as int);
            }
            break;
        }
    }
    proof {
        if i == arr@.len() {
            assert(arr@.subrange(0, i as int) =~= arr@);
        }
        assert forall|x: int, y: int| 0 <= x < y < out@.len() implies out@[x] < out@[y] by {
            assert(arr@[x] < arr@[y] || arr@[y] == u32::MAX);
        }
    }
    out
}

/// The leading values below the largest `u32` that `within` holds.
pub fn leading_values_within(arr: &Vec<u32>, within: &QueryResult) -> (res: Vec<u32>)
    requires
        finalized(arr@),
        within.wf(),
    ensures
        res@ == included(real_values(arr@), *within),
        strictly_sorted(res@),
{
    let ghost pred = |x: u32| within.has(x);
    let mut out: Vec<u32> = Vec::new();
    let mut i: usize = 0;
    proof {
        reveal(Seq::filter);
        assert(arr@.subrange(0, 0) =~= Seq::<u32>::empty());
        assert(real_values(Seq::<u32>::empty()).filter(pred) =~= Seq::<u32>::empty());
        assert(arr@.subrange(0, arr@.len() as int) =~= arr@);
    }
    while i < arr.len()
        invariant_except_break
            out@ == included(real_values(arr@.subrange(0, i as int)), *within),
        invariant
            arr@.subrange(0, arr@.len() as int) == arr@,
            finalized(arr@),
            within.wf(),
            pred == (|x: u32| within.has(x)),
            i <= arr@.len(),
            strictly_sorted(out@),
            forall|t: int| 0 <= t < out@.len() ==> exists|m: int| 0 <= m < i && arr@[m] == #[trigger] out@[t] && arr@[m] < u32::MAX,
        ensures
            out@ == included(real_values(arr@), *within),
            strictly_sorted(out@),
        decreases arr@.len() - i,
    {
        let e = arr[i];
        let keep = within.includes(e);
        let ghost sub = arr@.subrange(0, i as int);
        proof {
            assert(arr@.subrange(0, i + 1).drop_last() =~= sub);
            assert(arr@.subrange(0, i + 1).last() == e);
        }
        if keep {
            if e < u32::MAX {
                proof {
                    assert forall|t: int| 0 <= t < out@.len() implies out@[t] < e by {
                        let m = choose|m: int| 0 <= m < i && arr@[m] == #[trigger] out@[t] && arr@[m] < u32::MAX;
                        assert(arr@[m] < arr@[i as int] || arr@[i as int] == u32::MAX);
                    }
                }
                out.push(e);
                proof {
                    reveal(Seq::filter);
                    assert(real_values(arr@.subrange(0, i + 1)) == real_values(sub).push(e));
                    assert(real_values(sub).push(e).drop_last() =~= real_values(sub));
                    assert forall|t: int| 0 <= t < out@.len() implies exists|m: int| 0 <= m < i + 1 && arr@[m] == #[trigger] out@[t] && arr@[m] < u32::MAX by {
                        if t == out@.len() - 1 {
                            assert(arr@[i as int] == out@[t]);
                        } else {
                            let m = choose|m: int| 0 <= m < i && arr@[m] == #[trigger] out@[t] && arr@[m] < u32::MAX;
                            assert(arr@[m] == out@[t]);
                        }
                    }
                }
            } else {
                proof {
                    assert forall|k: int| i <= k < arr@.len() implies arr@[k] == u32::MAX by {
                        if k > i {
                            assert(arr@[i as int] < arr@[k] || arr@[k] == u32::MAX);
                        }
                    }
                    lemma_real_values_padding(arr@, i as int);
                }
                break;
            }
        } else {
            proof {
                reveal(Seq::filter);
                if e < u32::MAX {
                    assert(real_values(arr@.subrange(0, i + 1)) == real_values(sub).push(e));
                    assert(real_values(sub).push(e).drop_last() =~= real_values(sub));
                } else {
                    assert(real_values(arr@.subrange(0, i + 1)) == real_values(sub));
                }
            }
        }
        i += 1;
    }
    proof {
        if i == arr@.len() {
            assert(arr@.subrange(0, i as int) =~= arr@);
        }
    }
    out
}

/// Every letter is one of the 26.
pub open spec fn letters(word: Seq<u8>) -> bool {
    forall|k: int| 0 <= k < word.len() ==> #[trigger] word[k] < 26
}

/// A second-level node: the sorted ids that reached it, and one group of leaves per letter.
pub struct TrieNodeL1<const S: usize> {
    pub children: Vec<TrieLeaves>,
    pub out: FixedHeap<S>,
}

/// The first-level node: the sorted ids of all words, and one second-level node per letter.
pub struct TrieNodeRoot<const S: usize> {
    pub children: Vec<TrieNodeL1<S>>,
    pub out: FixedHeap<S>,
}

/// What a query of a second-level node gives: its ids for the empty word, else the query of
/// the leaves under the word's first letter for the rest of the word.
pub open spec fn l1_query_result<const S: usize>(
    node: TrieNodeL1<S>,
    char_arr: Seq<u8>,
    word: Seq<u8>,
    res: QueryResult,
) -> bool {
    if word.len() == 0 {
        res.wf() && res.perfect@ == real_values(node.out.arr@) && res.partial@.len() == 0
    } else {
        leaves_query_result(
            node.children@[word[0] as int].0@,
            char_arr,
            word.subrange(1, word.len() as int),
            res,
        )
    }
}

/// What an inner query of a second-level node gives.
pub open spec fn l1_inner_result<const S: usize>(
    node: TrieNodeL1<S>,
    char_arr: Seq<u8>,
    word: Seq<u8>,
    res: Seq<u32>,
) -> bool {
    if word.len() == 0 {
        strictly_sorted(res) && res == real_values(node.out.arr@)
    } else {
        leaves_inner_result(
            node.children@[word[0] as int].0@,
            char_arr,
            word.subrange(1, word.len() as int),
            res,
        )
    }
}

/// What a query of a second-level node within earlier matches gives.
pub open spec fn l1_filtered_result<const S: usize>(
    node: TrieNodeL1<S>,
    char_arr: Seq<u8>,
    word: Seq<u8>,
    within: QueryResult,
    res: QueryResult,
) -> bool {
    if word.len() == 0 {
        res.wf() && res.perfect@ == included(real_values(node.out.arr@), within)
            && res.partial@.len() == 0
    } else {
        leaves_filtered_result(
            node.children@[word[0] as int].0@,
            char_arr,
            word.subrange(1, word.len() as int),
            within,
            res,
        )
    }
}

/// What an inner query of a second-level node within earlier matches gives.
pub open spec fn l1_filtered_inner_result<const S: usize>(
    node: TrieNodeL1<S>,
    char_arr: Seq<u8>,
    word: Seq<u8>,
    within: QueryResult,
    res: Seq<u32>,
) -> bool {
    if word.len() == 0 {
        strictly_sorted(res) && res == included(real_values(node.out.arr@), within)
    } else {
        leaves_filtered_inner_result(
            node.children@[word[0] as int].0@,
            char_arr,
            word.subrange(1, word.len() as int),
            within,
            res,
        )
    }
}

/// What a query of the first-level node gives: its ids for the empty word, else the query
/// of the second-level node under the word's first letter for the rest of the word.
pub open spec fn root_query_result<const S: usize>(
    node: TrieNodeRoot<S>,
    char_arr: Seq<u8>,
    word: Seq<u8>,
    res: QueryResult,
) -> bool {
    if word.len() == 0 {
        res.wf() && res.perfect@ == real_values(node.out.arr@) && res.partial@.len() == 0
    } else {
        l1_query_result(
            node.children@[word[0] as int],
            char_arr,
            word.subrange(1, word.len() as int),
            res,
        )
    }
}

/// What an inner query of the first-level node gives.
pub open spec fn root_inner_result<const S: usize>(
    node: TrieNodeRoot<S>,
    char_arr: Seq<u8>,
    word: Seq<u8>,
    res: Seq<u32>,
) -> bool {
    if word.len() == 0 {
        strictly_sorted(res) && res == real_values(node.out.arr@)
    } else {
        l1_inner_result(
            node.children@[word[0] as int],
            char_arr,
            word.subrange(1, word.len() as int),
            res,
        )
    }
}

/// What a query of the first-level node within earlier matches gives.
pub open spec fn root_filtered_result<const S: usize>(
    node: TrieNodeRoot<S>,
    char_arr: Seq<u8>,
    word: Seq<u8>,
    within: QueryResult,
    res: QueryResult,
) -> bool {
    if word.len() == 0 {
        res.wf() && res.perfect@ == included(real_values(node.out.arr@), within)
            && res.partial@.len() == 0
    } else {
        l1_filtered_result(
            node.children@[word[0] as int],
            char_arr,
            word.subrange(1, word.len() as int),
            within,
            res,
        )
    }
}

/// What an inner query of the first-level node within earlier matches gives.
pub open spec fn root_filtered_inner_result<const S: usize>(
    node: TrieNodeRoot<S>,
    char_arr: Seq<u8>,
    word: Seq<u8>,
    within: QueryResult,
    res: Seq<u32>,
) -> bool {
    if word.len() == 0 {
        strictly_sorted(res) && res == included(real_values(node.out.arr@), within)
    } else {
        l1_filtered_inner_result(
            node.children@[word[0] as int],
            char_arr,
            word.subrange(1, word.len() as int),
            within,
            res,
        )
    }
}

impl<const S: usize> TrieNodeL1<S> {
    /// One group of well-formed leaves per letter and a finished heap of `S` slots.
    pub open spec fn wf(&self, char_arr: Seq<u8>) -> bool {
        &&& self.children@.len() == 26
        &&& forall|c: int| 0 <= c < 26 ==> #[trigger] self.children@[c].wf(char_arr)
        &&& self.out.arr@.len() == S
        &&& finalized(self.out.arr@)
    }

    /// The ids that reached this node.
    pub fn rel_inds(&self) -> (res: Vec<u32>)
        requires
            finalized(self.out.arr@),
        ensures
            res@ == real_values(self.out.arr@),
            strictly_sorted(res@),
    {
        leading_values(&self.out.arr)
    }

    /// The ids that reached this node and that `within` holds.
    pub fn rel_filt_inds(&self, within: &QueryResult) -> (res: Vec<u32>)
        requires
            finalized(self.out.arr@),
            within.wf(),
        ensures
            res@ == included(real_values(self.out.arr@), *within),
            strictly_sorted(res@),
    {
        leading_values_within(&self.out.arr, within)
    }

    /// Follows the word's first letter down to the leaves.
    pub fn query(&self, word: &[u8], char_arr: &[u8]) -> (res: QueryResult)
        requires
            self.wf(char_arr@),
            letters(word@),
            word@.len() <= u16::MAX + 1,
        ensures
            l1_query_result(*self, char_arr@, word@, res),
    {
        if word.len() == 0 {
            let perfect = self.rel_inds();
            return QueryResult { perfect, partial: Vec::new() };
        }
        let c = word[0] as usize;
        let rest = vstd::slice::slice_subrange(word, 1, word.len());
        proof {
            assert(self.children@[c as int].wf(char_arr@));
        }
        self.children[c].query(rest, char_arr)
    }

    /// Follows the word's first letter down to the leaves, for inner matches.
    pub fn query_inners(&self, word: &[u8], char_arr: &[u8]) -> (res: Vec<u32>)
        requires
            self.wf(char_arr@),
            letters(word@),
        ensures
            l1_inner_result(*self, char_arr@, word@, res@),
    {
        if word.len() == 0 {
            return self.rel_inds();
        }
        let c = word[0] as usize;
        let rest = vstd::slice::slice_subrange(word, 1, word.len());
        proof {
            assert(self.children@[c as int].wf(char_arr@));
        }
        self.children[c].query_inners(rest, char_arr)
    }

    /// Follows the word's first letter down to the leaves, within earlier matches.
    pub fn query_prefiltered(&self, word: &[u8], char_arr: &[u8], within: &QueryResult) -> (res:
        QueryResult)
        requires
            self.wf(char_arr@),
            letters(word@),
            word@.len() <= u16::MAX + 1,
            within.wf(),
        ensures
            l1_filtered_result(*self, char_arr@, word@, *within, res),
    {
        if word.len() == 0 {
            let perfect = self.rel_filt_inds(within);
            return QueryResult { perfect, partial: Vec::new() };
        }
        let c = word[0] as usize;
        let rest = vstd::slice::slice_subrange(word, 1, word.len());
        proof {
            assert(self.children@[c as int].wf(char_arr@));
        }
        self.children[c].query_prefiltered(rest, char_arr, within)
    }

    /// Follows the word's first letter down to the leaves, for inner matches within earlier
    /// matches.
    pub fn query_inners_prefiltered(&self, word: &[u8], char_arr: &[u8], within: &QueryResult) -> (res:
        Vec<u32>)
        requires
            self.wf(char_arr@),
            letters(word@),
            within.wf(),
        ensures
            l1_filtered_inner_result(*self, char_arr@, word@, *within, res@),
    {
        if word.len() == 0 {
            return self.rel_filt_inds(within);
        }
        let c = word[0] as usize;
        let rest = vstd::slice::slice_subrange(word, 1, word.len());
        proof {
            assert(self.children@[c as int].wf(char_arr@));
        }
        self.children[c].query_inners_prefiltered(rest, char_arr, within)
    }
}

impl<const S: usize> TrieNodeRoot<S> {
    /// One well-formed second-level node per letter and a finished heap of `S` slots.
    pub open spec fn wf(&self, char_arr: Seq<u8>) -> bool {
        &&& self.children@.len() == 26
        &&& forall|c: int| 0 <= c < 26 ==> #[trigger] self.children@[c].wf(char_arr)
        &&& self.out.arr@.len() == S
        &&& finalized(self.out.arr@)
    }

    /// The ids of all words.
    pub fn rel_inds(&self) -> (res: Vec<u32>)
        requires
            finalized(self.out.arr@),
        ensures
            res@ == real_values(self.out.arr@),
            strictly_sorted(res@),
    {
        leading_values(&self.out.arr)
    }

    /// The ids of all words that `within` holds.
    pub fn rel_filt_inds(&self, within: &QueryResult) -> (res: Vec<u32>)
        requires
            finalized(self.out.arr@),
            within.wf(),
        ensures
            res@ == included(real_values(self.out.arr@), *within),
            strictly_sorted(res@),
    {
        leading_values_within(&self.out.arr, within)
    }

    /// Follows the word's first letter down one level.
    pub fn query(&self, word: &[u8], char_arr: &[u8]) -> (res: QueryResult)
        requires
            self.wf(char_arr@),
            letters(word@),
            word@.len() <= u16::MAX + 2,
        ensures
            root_query_result(*self, char_arr@, word@, res),
    {
        if word.len() == 0 {
            let perfect = self.rel_inds();
            return QueryResult { perfect, partial: Vec::new() };
        }
        let c = word[0] as usize;
        let rest = vstd::slice::slice_subrange(word, 1, word.len());
        proof {
            assert(self.children@[c as int].wf(char_arr@));
        }
        self.children[c].query(rest, char_arr)
    }

    /// Follows the word's first letter down one level, for inner matches.
    pub fn query_inners(&self, word: &[u8], char_arr: &[u8]) -> (res: Vec<u32>)
        requires
            self.wf(char_arr@),
            letters(word@),
        ensures
            root_inner_result(*self, char_arr@, word@, res@),
    {
        if word.len() == 0 {
            return self.rel_inds();
        }
        let c = word[0] as usize;
        let rest = vstd::slice::slice_subrange(word, 1, word.len());
        proof {
            assert(self.children@[c as int].wf(char_arr@));
        }
        self.children[c].query_inners(rest, char_arr)
    }

    /// Follows the word's first letter down one level, within earlier matches.
    pub fn query_prefiltered(&self, word: &[u8], char_arr: &[u8], within: &QueryResult) -> (res:
        QueryResult)
        requires
            self.wf(char_arr@),
            letters(word@),
            word@.len() <= u16::MAX + 2,
            within.wf(),
        ensures
            root_filtered_result(*self, char_arr@, word@, *within, res),
    {
        if word.len() == 0 {
            let perfect = self.rel_filt_inds(within);
            return QueryResult { perfect, partial: Vec::new() };
        }
        let c = word[0] as usize;
        let rest = vstd::slice::slice_subrange(word, 1, word.len());
        proof {
            assert(self.children@[c as int].wf(char_arr@));
        }
        self.children[c].query_prefiltered(rest, char_arr, within)
    }

    /// Follows the word's first letter down one level, for inner matches within earlier
    /// matches.
    pub fn query_inners_prefiltered(&self, word: &[u8], char_arr: &[u8], within: &QueryResult) -> (res:
        Vec<u32>)
        requires
            self.wf(char_arr@),
            letters(word@),
            within.wf(),
        ensures
            root_filtered_inner_result(*self, char_arr@, word@, *within, res@),
    {
        if word.len() == 0 {
            return self.rel_filt_inds(within);
        }
        let c = word[0] as usize;
        let rest = vstd::slice::slice_subrange(word, 1, word.len());
        proof {
            assert(self.children@[c as int].wf(char_arr@));
        }
        self.children[c].query_inners_prefiltered(rest, char_arr, within)
    }
}

/// The elements of `missing_from` are those of `add` that `base` lacks, and they keep the
/// strict order of `add`.
pub proof fn lemma_missing_from(base: Seq<u32>, add: Seq<u32>)
    requires
        strictly_sorted(add),
    ensures
        strictly_sorted(missing_from(base, add)),
        forall|x: u32| #[trigger]
            missing_from(base, add).contains(x) <==> add.contains(x) && !base.contains(x),
    decreases add.len(),
{
    reveal(Seq::filter);
    let pred = |x: u32| !base.contains(x);
    if add.len() > 0 {
        let prev = add.drop_last();
        assert forall|i: int, j: int| 0 <= i < j < prev.len() implies prev[i] < prev[j] by {
            assert(add[i] < add[j]);
        }
        lemma_missing_from(base, prev);
        let m = missing_from(base, prev);
        assert(add.filter(pred) == (if pred(add.last()) {
            prev.filter(pred).push(add.last())
        } else {
            prev.filter(pred)
        }));
        assert forall|t: int| 0 <= t < m.len() implies m[t] < add.last() by {
            assert(m.contains(m[t]));
            assert(prev.contains(m[t]));
            let k = choose|k: int| 0 <= k < prev.len() && prev[k] == m[t];
            assert(add[k] < add[add.len() - 1]);
        }
        assert forall|x: u32| #[trigger]
            missing_from(base, add).contains(x) <==> add.contains(x) && !base.contains(x) by {
            if add.contains(x) && !base.contains(x) {
                let k = choose|k: int| 0 <= k < add.len() && add[k] == x;
                if k < add.len() - 1 {
                    assert(prev[k] == x);
                    assert(prev.contains(x));
                } else {
                    assert(missing_from(base, add).last() == x);
                }
            }
            if missing_from(base, add).contains(x) {
                if m.contains(x) {
                    let k = choose|k: int| 0 <= k < prev.len() && prev[k] == x;
                    assert(add[k] == x);
                } else {
                    assert(x == add.last());
                }
            }
        }
    } else {
        assert(missing_from(base, add) =~= Seq::<u32>::empty());
    }
}

/// The two lists as one: the perfect matches, then the partial ones that are not among them.
pub open spec fn joined(res: QueryResult) -> Seq<u32> {
    res.perfect@ + missing_from(res.perfect@, res.partial@)
}

/// Joined lists hold no id twice.
pub proof fn lemma_joined_no_duplicates(res: QueryResult)
    requires
        res.wf(),
    ensures
        joined(res).no_duplicates(),
{
    let p = res.perfect@;
    let m = missing_from(p, res.partial@);
    lemma_missing_from(p, res.partial@);
    let j = joined(res);
    assert forall|a: int, b: int| 0 <= a < j.len() && 0 <= b < j.len() && a != b implies j[a] != j[b] by {
        if a < p.len() && b < p.len() {
        } else if a >= p.len() && b >= p.len() {
            assert(m[a - p.len()] != m[b - p.len()]);
        } else if a < p.len() {
            assert(m.contains(j[b]));
            assert(p.contains(j[a]));
        } else {
            assert(m.contains(j[a]));
            assert(p.contains(j[b]));
        }
    }
}

impl QueryResult {
    /// The perfect matches, then the partial ones that are not among them.
    pub fn into_vec(self) -> (res: Vec<u32>)
        requires
            self.wf(),
        ensures
            res@ == joined(self),
            res@.no_duplicates(),
    {
        let ghost me = self;
        let mut perfect = self.perfect;
        extend_sorted(&mut perfect, self.partial);
        proof {
            lemma_joined_no_duplicates(me);
        }
        perfect
    }
}

/// The prefix trie, the trie of the words' inner parts, and the letters their leaves point
/// into.
pub struct CustomTrie<const S: usize> {
    pub prefix_tree: TrieNodeRoot<S>,
    pub inner_tree: TrieNodeRoot<S>,
    pub char_array: Vec<u8>,
}

/// The matches of one word: the prefix query, with the inner query's ids added to the partial
/// matches where the prefix query found fewer than `limit`.
pub open spec fn word_matches<const S: usize>(
    trie: CustomTrie<S>,
    word: Seq<u8>,
    limit: usize,
    res: QueryResult,
) -> bool {
    exists|pre: QueryResult|
        #[trigger] root_query_result(trie.prefix_tree, trie.char_array@, word, pre) && res.wf()
            && res.perfect@ == pre.perfect@ && (if fewer_than(pre, limit) {
            exists|ins: Seq<u32>|
                #[trigger] root_inner_result(trie.inner_tree, trie.char_array@, word, ins)
                    && res.partial@.to_set() == pre.partial@.to_set().union(ins.to_set())
        } else {
            res.partial@ == pre.partial@
        })
}

/// The matches of the first word of a query of several words: its prefix matches, with all of
/// its inner matches added to the partial ones.
pub open spec fn first_matches<const S: usize>(trie: CustomTrie<S>, word: Seq<u8>, m: QueryResult) -> bool {
    exists|pre: QueryResult|
        #[trigger] root_query_result(trie.prefix_tree, trie.char_array@, word, pre) && m.wf()
            && m.perfect@ == pre.perfect@ && exists|ins: Seq<u32>|
            #[trigger] root_inner_result(trie.inner_tree, trie.char_array@, word, ins)
                && m.partial@.to_set() == pre.partial@.to_set().union(ins.to_set())
}

/// The matches of a later word within the matches `prev` of the words before it: its prefix
/// matches among them, with its inner matches among them added where it has more than one
/// letter.
pub open spec fn next_matches<const S: usize>(
    trie: CustomTrie<S>,
    word: Seq<u8>,
    prev: QueryResult,
    m: QueryResult,
) -> bool {
    exists|prefs: QueryResult|
        #[trigger] root_filtered_result(trie.prefix_tree, trie.char_array@, word, prev, prefs)
            && m.wf() && m.perfect@ == prefs.perfect@ && if word.len() > 1 {
            exists|ins: Seq<u32>|
                #[trigger] root_filtered_inner_result(trie.inner_tree, trie.char_array@, word, prev, ins)
                    && m.partial@.to_set() == prefs.partial@.to_set().union(ins.to_set())
        } else {
            m.partial@ == prefs.partial@
        }
}

/// Match lists, one for each of the first words: the first word's own, and each later word's
/// taken within those of the word before it.
pub open spec fn chained<const S: usize>(trie: CustomTrie<S>, words: Seq<Seq<u8>>, ms: Seq<QueryResult>) -> bool {
    &&& ms.len() >= 1
    &&& first_matches(trie, words[0], ms[0])
    &&& forall|k: int| 1 <= k < ms.len() ==> next_matches(trie, words[k], ms[k - 1], #[trigger] ms[k])
}

/// How many of a query's words the search goes through: three at most.
pub open spec fn words_searched(count: int) -> int {
    if count < 3 { count } else { 3 }
}

/// The words of a query, as letters 0..26.
pub open spec fn sword_words(sword: StackWordSet) -> Seq<Seq<u8>> {
    Seq::new(sword.breaks_count as nat, |j: int| word_at(sword, j))
}

/// The lists hold fewer than `limit` ids together.
pub open spec fn fewer_than(m: QueryResult, limit: usize) -> bool {
    m.perfect@.len() + m.partial@.len() < limit
}

/// The word of `sword` that ends at the `i`-th boundary.
pub open spec fn word_at(sword: StackWordSet, i: int) -> Seq<u8> {
    sword.char_array@.subrange(sword.word_start(i), sword.break_array@[i] as int)
}

impl<const S: usize> CustomTrie<S> {
    /// Both tries are well formed over the letter array.
    pub open spec fn wf(&self) -> bool {
        self.prefix_tree.wf(self.char_array@) && self.inner_tree.wf(self.char_array@)
    }

    /// Adds the inner matches of `word` to the partial matches.
    pub fn extend_matches(&self, matches: &mut QueryResult, word: &[u8])
        requires
            self.wf(),
            old(matches).wf(),
            letters(word@),
        ensures
            final(matches).wf(),
            final(matches).perfect@ == old(matches).perfect@,
            exists|ins: Seq<u32>|
                #[trigger] root_inner_result(self.inner_tree, self.char_array@, word@, ins)
                    && final(matches).partial@.to_set() == old(matches).partial@.to_set().union(
                    ins.to_set(),
                ),
    {
        let ins = self.inner_tree.query_inners(word, self.char_array.as_slice());
        proof {
            if word@.len() == 0 {
                assert(strictly_sorted(ins@));
            } else {
                let c = word@[0] as int;
                assert(self.inner_tree.children@[c].wf(self.char_array@));
                let w1 = word@.subrange(1, word@.len() as int);
                if w1.len() > 0 {
                    assert(self.inner_tree.children@[c].children@[w1[0] as int].wf(self.char_array@));
                }
            }
        }
        let ghost ins_v = ins@;
        merge_into_sorted_vec(&mut matches.partial, ins);
    }

    /// The matches of the query's words: for one word, its prefix matches, with its inner
    /// matches added while there are fewer than `limit`; for more, each of the first three
    /// words' matches found within those of the words before.
    pub fn query(&self, sword: &StackWordSet, limit: usize) -> (res: Vec<u32>)
        requires
            self.wf(),
            sword.wf(),
        ensures
            res@.no_duplicates(),
            sword.breaks_count <= 1 ==> exists|m: QueryResult|
                #[trigger] word_matches(
                    *self,
                    sword.char_array@.subrange(0, sword.break_array@[0] as int),
                    limit,
                    m,
                ) && res@ == joined(m),
            sword.breaks_count > 1 ==> exists|ms: Seq<QueryResult>|
                #[trigger] chained(*self, sword_words(*sword), ms) && ms.len() == words_searched(sword.breaks_count as int)
                    && res@ == joined(ms.last()),
    {
        let ca = self.char_array.as_slice();
        if sword.breaks_count <= 1 {
            let be = sword.break_array[0] as usize;
            let word = vstd::slice::slice_subrange(sword.char_array.as_slice(), 0, be);
            proof {
                assert forall|k: int| 0 <= k < word@.len() implies #[trigger] word@[k] < 26 by {
                    assert(word@[k] == sword.char_array@[k]);
                }
            }
            let mut matches = self.prefix_tree.query(word, ca);
            proof {
                root_result_wf(self.prefix_tree, self.char_array@, word@, matches);
            }
            let ghost pre = matches;
            if matches.perfect.len() < limit && matches.partial.len() < limit - matches.perfect.len() {
                self.extend_matches(&mut matches, word);
                proof {
                    let ins = choose|ins: Seq<u32>|
                        #[trigger] root_inner_result(self.inner_tree, self.char_array@, word@, ins)
                            && matches.partial@.to_set() == pre.partial@.to_set().union(ins.to_set());
                    assert(word_matches(*self, word@, limit, matches));
                }
            } else {
                proof {
                    assert(word_matches(*self, word@, limit, matches));
                }
            }
            let ghost m = matches;
            let res = matches.into_vec();
            return res;
        } else {
            let be = sword.break_array[0] as usize;
            let word = vstd::slice::slice_subrange(sword.char_array.as_slice(), 0, be);
            let mut matches = self.prefix_tree.query(word, ca);
            proof {
                root_result_wf(self.prefix_tree, self.char_array@, word@, matches);
            }
            let ghost pre = matches;
            self.extend_matches(&mut matches, word);
            let ghost words = sword_words(*sword);
            proof {
                assert(words[0] == word@);
                let ins = choose|ins: Seq<u32>|
                    #[trigger] root_inner_result(self.inner_tree, self.char_array@, word@, ins)
                        && matches.partial@.to_set() == pre.partial@.to_set().union(ins.to_set());
                assert(root_query_result(self.prefix_tree, self.char_array@, word@, pre));
                assert(first_matches(*self, words[0], matches));
            }
            let ghost mut ms: Seq<QueryResult> = seq![matches];
            let mut bs = be;
            let last = if sword.breaks_count < 3 {
                sword.breaks_count
            } else {
                3
            };
            let mut i: usize = 1;
            while i < last
                invariant
                    ca@ == self.char_array@,
                    self.wf(),
                    sword.wf(),
                    1 <= i <= last <= sword.breaks_count,
                    last <= 3,
                    bs == sword.break_array@[i - 1],
                    matches.wf(),
                    words == sword_words(*sword),
                    chained(*self, words, ms),
                    ms.len() == i,
                    ms.last() == matches,
                decreases last - i,
            {
                let be = sword.break_array[i] as usize;
                proof {
                    assert(sword.break_array@[i - 1] < sword.break_array@[i as int]);
                }
                let word = vstd::slice::slice_subrange(sword.char_array.as_slice(), bs, be);
                proof {
                    assert forall|k: int| 0 <= k < word@.len() implies #[trigger] word@[k] < 26 by {
                        assert(word@[k] == sword.char_array@[bs + k]);
                    }
                }
                let mut prefs = self.prefix_tree.query_prefiltered(word, ca, &matches);
                proof {
                    root_filtered_wf(self.prefix_tree, self.char_array@, word@, matches, prefs);
                }
                let ghost prev = matches;
                let ghost first_prefs = prefs;
                if word.len() > 1 {
                    let ins = self.inner_tree.query_inners_prefiltered(word, ca, &matches);
                    proof {
                        root_filtered_inner_sorted(self.inner_tree, self.char_array@, word@, matches, ins@);
                    }
                    let ghost ins_v = ins@;
                    merge_into_sorted_vec(&mut prefs.partial, ins);
                    proof {
                        assert(root_filtered_inner_result(self.inner_tree, self.char_array@, word@, prev, ins_v));
                    }
                }
                matches = prefs;
                proof {
                    assert(words[i as int] == word@);
                    assert(root_filtered_result(self.prefix_tree, self.char_array@, word@, prev, first_prefs));
                    assert(next_matches(*self, words[i as int], prev, matches));
                    let ms2 = ms.push(matches);
                    assert forall|k: int| 1 <= k < ms2.len() implies next_matches(*self, words[k], ms2[k - 1], #[trigger] ms2[k]) by {
                        if k < ms.len() {
                            assert(ms2[k] == ms[k] && ms2[k - 1] == ms[k - 1]);
                        }
                    }
                    ms = ms2;
                }
                bs = be;
                i += 1;
            }
            let ghost m = matches;
            let res = matches.into_vec();
            proof {
                assert(i == last);
                assert(last as int == words_searched(sword.breaks_count as int));
                assert(chained(*self, sword_words(*sword), ms));
            }
            res
        }
    }
}

/// A query's result of the first-level node is strictly sorted.
pub proof fn root_result_wf<const S: usize>(
    node: TrieNodeRoot<S>,
    char_arr: Seq<u8>,
    word: Seq<u8>,
    res: QueryResult,
)
    requires
        root_query_result(node, char_arr, word, res),
    ensures
        res.wf(),
{
    if word.len() > 0 {
        let w1 = word.subrange(1, word.len() as int);
        if w1.len() > 0 {
        }
    }
}

/// A filtered query's result of the first-level node is strictly sorted.
pub proof fn root_filtered_wf<const S: usize>(
    node: TrieNodeRoot<S>,
    char_arr: Seq<u8>,
    word: Seq<u8>,
    within: QueryResult,
    res: QueryResult,
)
    requires
        root_filtered_result(node, char_arr, word, within, res),
    ensures
        res.wf(),
{
}

/// A filtered inner query's result of the first-level node is strictly sorted.
pub proof fn root_filtered_inner_sorted<const S: usize>(
    node: TrieNodeRoot<S>,
    char_arr: Seq<u8>,
    word: Seq<u8>,
    within: QueryResult,
    res: Seq<u32>,
)
    requires
        root_filtered_inner_result(node, char_arr, word, within, res),
    ensures
        strictly_sorted(res),
{
}

} // verus!
