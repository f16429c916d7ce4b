use vstd::prelude::*;

verus! {

/// The index type the search engine stores for every haystack.
pub type IndType = u32;

/// Every element is smaller than the next one.
pub open spec fn strictly_sorted(s: Seq<u32>) -> bool {
    forall|i: int, j: int| 0 <= i < j < s.len() ==> s[i] < s[j]
}

/// No element is larger than a later one.
pub open spec fn sorted(s: Seq<u32>) -> bool {
    forall|i: int, j: int| 0 <= i <= j < s.len() ==> s[i] <= s[j]
}

/// Which of the two sorted inputs a merged element came from.
pub enum MergeSide {
    Left,
    Right,
    Common,
}

/// The calls a merge of `l` and `r` makes, in order: equal heads are one common call,
/// otherwise the smaller head goes first (the right one on a tie of "not smaller").
pub open spec fn merge_calls(l: Seq<u32>, r: Seq<u32>) -> Seq<(MergeSide, u32)>
    decreases l.len() + r.len(),
{
    if l.len() == 0 {
        r.map_values(|e: u32| (MergeSide::Right, e))
    } else if r.len() == 0 {
        l.map_values(|e: u32| (MergeSide::Left, e))
    } else if l[0] == r[0] {
        seq![(MergeSide::Common, l[0])] + merge_calls(l.drop_first(), r.drop_first())
    } else if r[0] < l[0] {
        seq![(MergeSide::Right, r[0])] + merge_calls(l, r.drop_first())
    } else {
        seq![(MergeSide::Left, l[0])] + merge_calls(l.drop_first(), r)
    }
}

/// The values a merge emits: one per call.
pub open spec fn merged_values(l: Seq<u32>, r: Seq<u32>) -> Seq<u32> {
    merge_calls(l, r).map_values(|c: (MergeSide, u32)| c.1)
}

/// Something that receives the calls of an ordered merge.
pub trait OrderedMapper {
    /// The calls received so far.
    spec fn calls(&self) -> Seq<(MergeSide, u32)>;

    /// What the mapper keeps true between calls.
    spec fn inv(&self) -> bool;

    fn left_map(&mut self, e: &u32)
        requires
            old(self).inv(),
        ensures
            final(self).inv(),
            final(self).calls() == old(self).calls().push((MergeSide::Left, *e)),
    ;

    fn right_map(&mut self, e: &u32)
        requires
            old(self).inv(),
        ensures
            final(self).inv(),
            final(self).calls() == old(self).calls().push((MergeSide::Right, *e)),
    ;

    fn common_map(&mut self, l: &u32, r: &u32)
        requires
            old(self).inv(),
            *l == *r,
        ensures
            final(self).inv(),
            final(self).calls() == old(self).calls().push((MergeSide::Common, *l)),
    ;
}

/// A growable array of indices.
pub trait ExtendableArr {
    spec fn elems(&self) -> Seq<u32>;

    fn add(&mut self, e: u32)
        ensures
            final(self).elems() == old(self).elems().push(e),
    ;
}

impl ExtendableArr for Vec<u32> {
    open spec fn elems(&self) -> Seq<u32> {
        self@
    }

    fn add(&mut self, e: u32) {
        self.push(e)
    }
}

/// Collects every merged value into an array, one per call.
pub struct ArrExtender<V> {
    pub v: V,
    pub calls_made: Ghost<Seq<(MergeSide, u32)>>,
}

impl<V: ExtendableArr> OrderedMapper for ArrExtender<V> {
    open spec fn calls(&self) -> Seq<(MergeSide, u32)> {
        self.calls_made@
    }

    /// The collected array holds the values of the calls.
    open spec fn inv(&self) -> bool {
        self.v.elems() == self.calls_made@.map_values(|c: (MergeSide, u32)| c.1)
    }

    fn left_map(&mut self, e: &u32) {
        self.v.add(*e);
        self.calls_made = Ghost(self.calls_made@.push((MergeSide::Left, *e)));
        assert(self.calls_made@.map_values(|c: (MergeSide, u32)| c.1) =~= old(self).calls_made@.map_values(|c: (MergeSide, u32)| c.1).push(*e));
    }

    fn right_map(&mut self, e: &u32) {
        self.v.add(*e);
        self.calls_made = Ghost(self.calls_made@.push((MergeSide::Right, *e)));
        assert(self.calls_made@.map_values(|c: (MergeSide, u32)| c.1) =~= old(self).calls_made@.map_values(|c: (MergeSide, u32)| c.1).push(*e));
    }

    fn common_map(&mut self, l: &u32, _r: &u32) {
        self.v.add(*l);
        self.calls_made = Ghost(self.calls_made@.push((MergeSide::Common, *l)));
        assert(self.calls_made@.map_values(|c: (MergeSide, u32)| c.1) =~= old(self).calls_made@.map_values(|c: (MergeSide, u32)| c.1).push(*l));
    }
}

/// Calls `merger` once for every element of the two sequences, in merged order: equal
/// heads meet in one common call, otherwise the smaller head is emitted first.
pub fn ordered_calls<M: OrderedMapper>(left: &[u32], right: &[u32], merger: &mut M)
    requires
        old(merger).inv(),
    ensures
        final(merger).inv(),
        final(merger).calls() == old(merger).calls() + merge_calls(left@, right@),
{
    let ghost start = merger.calls();
    let mut li: usize = 0;
    let mut ri: usize = 0;
    assert(left@.subrange(0, left@.len() as int) =~= left@);
    assert(right@.subrange(0, right@.len() as int) =~= right@);
    while li < left.len() || ri < right.len()
        invariant
            li <= left.len(),
            ri <= right.len(),
            merger.inv(),
            start + merge_calls(left@, right@) == merger.calls() + merge_calls(
                left@.subrange(li as int, left@.len() as int),
                right@.subrange(ri as int, right@.len() as int),
            ),
        decreases left.len() + right.len() - li - ri,
    {
        let ghost ls = left@.subrange(li as int, left@.len() as int);
        let ghost rs = right@.subrange(ri as int, right@.len() as int);
        proof {
            assert(ls.len() == left.len() - li);
            assert(rs.len() == right.len() - ri);
        }
        if li == left.len() {
            proof {
                assert(ls.len() == 0);
                assert(rs.len() > 0);
                assert(merge_calls(ls, rs) =~= seq![(MergeSide::Right, rs[0])]
                    + merge_calls(ls, rs.drop_first())) by {
                    assert(merge_calls(ls, rs) == rs.map_values(
                        |e: u32| (MergeSide::Right, e),
                    ));
                    assert(merge_calls(ls, rs.drop_first()) == rs.drop_first().map_values(
                        |e: u32| (MergeSide::Right, e),
                    ));
                }
                assert(rs.drop_first() =~= right@.subrange(ri + 1, right@.len() as int));
            }
            merger.right_map(&right[ri]);
            ri += 1;
        } else if ri == right.len() {
            proof {
                assert(rs.len() == 0);
                assert(merge_calls(ls, rs) =~= seq![(MergeSide::Left, ls[0])]
                    + merge_calls(ls.drop_first(), rs)) by {
                    assert(merge_calls(ls, rs) == ls.map_values(
                        |e: u32| (MergeSide::Left, e),
                    ));
                    if ls.drop_first().len() == 0 {
                        assert(merge_calls(ls.drop_first(), rs) =~= Seq::empty());
                    } else {
                        assert(merge_calls(ls.drop_first(), rs) == ls.drop_first().map_values(
                            |e: u32| (MergeSide::Left, e),
                        ));
                    }
                }
                assert(ls.drop_first() =~= left@.subrange(li + 1, left@.len() as int));
            }
            merger.left_map(&left[li]);
            li += 1;
        } else if left[li] == right[ri] {
            proof {
                assert(ls.drop_first() =~= left@.subrange(li + 1, left@.len() as int));
                assert(rs.drop_first() =~= right@.subrange(ri + 1, right@.len() as int));
            }
            merger.common_map(&left[li], &right[ri]);
            li += 1;
            ri += 1;
        } else if right[ri] < left[li] {
            proof {
                assert(rs.drop_first() =~= right@.subrange(ri + 1, right@.len() as int));
            }
            merger.right_map(&right[ri]);
            ri += 1;
        } else {
            proof {
                assert(ls.drop_first() =~= left@.subrange(li + 1, left@.len() as int));
            }
            merger.left_map(&left[li]);
            li += 1;
        }
    }
    proof {
        assert(left@.subrange(li as int, left@.len() as int) =~= Seq::empty());
        assert(right@.subrange(ri as int, right@.len() as int) =~= Seq::empty());
        assert(merge_calls(Seq::<u32>::empty(), Seq::<u32>::empty()) =~= Seq::empty());
    }
}

/// Merges two sequences into `out`, each common element once.
pub fn sorted_iters_to_arr(out: &mut Vec<u32>, left: &[u32], right: &[u32])
    ensures
        final(out)@ == old(out)@ + merged_values(left@, right@),
{
    let v: Vec<u32> = Vec::new();
    let mut vadd = ArrExtender { v, calls_made: Ghost(Seq::empty()) };
    assert(vadd.calls_made@.map_values(|c: (MergeSide, u32)| c.1) =~= Seq::empty());
    ordered_calls(left, right, &mut vadd);
    proof {
        assert(vadd.calls_made@ =~= merge_calls(left@, right@));
    }
    let mut merged = vadd.v;
    out.append(&mut merged);
}

/// The merge of two vectors into a new one.
fn _merge_sorted_vecs(left_vec: Vec<u32>, right_vec: Vec<u32>) -> (res: Vec<u32>)
    ensures
        res@ == merged_values(left_vec@, right_vec@),
{
    let mut v = Vec::new();
    sorted_iters_to_arr(&mut v, left_vec.as_slice(), right_vec.as_slice());
    v
}

/// A test on elements that a binary search can ask.
pub trait SearchPredicate<T> {
    spec fn holds(&self, x: &T) -> bool;

    fn test(&self, x: &T) -> (b: bool)
        ensures
            b == self.holds(x),
    ;
}

/// The test "smaller than the value held".
pub struct LessThan(pub u32);

impl SearchPredicate<u32> for LessThan {
    open spec fn holds(&self, x: &u32) -> bool {
        *x < self.0
    }

    fn test(&self, x: &u32) -> (b: bool) {
        *x < self.0
    }
}

/// Whether the test, once false along `arr`, stays false.
pub open spec fn search_monotone<T, P: SearchPredicate<T>>(arr: Seq<T>, f: &P) -> bool {
    forall|i: int, j: int|
        0 <= i <= j < arr.len() && #[trigger] f.holds(&arr[j]) ==> #[trigger] f.holds(&arr[i])
}

/// A binary search for the point where `f` turns false: `f` holds just before the result
/// and fails at it; for a test that, once false along `arr`, stays false, `f` holds of every
/// element of `arr[..i]` and of none of `arr[i..]`.
pub fn log_search<T, P: SearchPredicate<T>>(arr: &[T], f: &P) -> (res: usize)
    ensures
        res <= arr@.len(),
        res > 0 ==> f.holds(&arr@[res - 1]),
        res < arr@.len() ==> !f.holds(&arr@[res as int]),
        search_monotone(arr@, f) ==> forall|i: int| 0 <= i < res ==> #[trigger] f.holds(&arr@[i]),
        search_monotone(arr@, f) ==> forall|i: int|
            res <= i < arr@.len() ==> !#[trigger] f.holds(&arr@[i]),
{
    if arr.len() == 0 {
        return 0;
    }
    let mut l: usize = 0;
    let mut r: usize = arr.len();
    loop
        invariant_except_break
            l < r,
        invariant
            l <= r <= arr@.len(),
            l > 0 ==> f.holds(&arr@[l - 1]),
            r < arr@.len() ==> !f.holds(&arr@[r as int]),
            search_monotone(arr@, f) ==> forall|i: int| 0 <= i < l ==> #[trigger] f.holds(&arr@[i]),
            search_monotone(arr@, f) ==> forall|i: int|
                r <= i < arr@.len() ==> !#[trigger] f.holds(&arr@[i]),
        ensures
            l == r,
        decreases r - l,
    {
        let m = l + (r - l) / 2;
        if f.test(&arr[m]) {
            l = m + 1;
        } else {
            r = m;
        }
        if l >= r {
            break;
        }
    }
    l
}

/// Whether `val` is in the sorted vector `v`.
pub fn logfound(v: &Vec<u32>, val: u32) -> (res: bool)
    requires
        sorted(v@),
    ensures
        res == v@.contains(val),
{
    let f = LessThan(val);
    assert forall|i: int, j: int|
        0 <= i <= j < v@.len() && #[trigger] f.holds(&v@[j]) implies #[trigger] f.holds(&v@[i]) by {
        assert(v@[i] <= v@[j]);
    }
    assert(search_monotone(v@, &f));
    let li = log_search(v.as_slice(), &f);
    if li < v.len() {
        let found = v[li] == val;
        proof {
            if !found {
                assert forall|i: int| 0 <= i < v@.len() implies v@[i] != val by {
                    if i < li {
                        assert(f.holds(&v@[i]) == (v@[i] < val));
                    } else {
                        assert(f.holds(&v@[li as int]) == (v@[li as int] < val));
                    }
                }
            } else {
                assert(v@[li as int] == val);
            }
        }
        return found;
    }
    proof {
        assert forall|i: int| 0 <= i < v@.len() implies v@[i] != val by {
            assert(f.holds(&v@[i]) == (v@[i] < val));
        }
    }
    false
}

/// `b` put into the sorted `t` before the first element that is not smaller than it.
pub open spec fn inserted_at(t: Seq<u32>, b: u32, k: int) -> bool {
    &&& 0 <= k <= t.len()
    &&& forall|j: int| 0 <= j < k ==> t[j] < b
    &&& k < t.len() ==> t[k] >= b
}

/// Moves `arr[start]` up past the smaller elements after it, so a sorted tail stays sorted.
fn movin_on_up(arr: &mut Vec<u32>, start: usize)
    requires
        start < old(arr)@.len(),
        sorted(old(arr)@.subrange(start + 1, old(arr)@.len() as int)),
    ensures
        final(arr)@.len() == old(arr)@.len(),
        final(arr)@.subrange(0, start as int) == old(arr)@.subrange(0, start as int),
        exists|k: int|
            #[trigger] inserted_at(old(arr)@.subrange(start + 1, old(arr)@.len() as int), old(arr)@[start as int], k)
                && final(arr)@.subrange(start as int, old(arr)@.len() as int) == old(
                arr,
            )@.subrange(start + 1, start + 1 + k).push(old(arr)@[start as int]) + old(arr)@.subrange(
                start + 1 + k,
                old(arr)@.len() as int,
            ),
{
    let ghost t = old(arr)@.subrange(start + 1, old(arr)@.len() as int);
    let ghost b = old(arr)@[start as int];
    let ghost n = old(arr)@.len() as int;
    let mut i = start;
    while i < arr.len() - 1
        invariant
            start <= i < arr@.len(),
            arr@.len() == n,
            arr@.subrange(0, start as int) == old(arr)@.subrange(0, start as int),
            arr@.subrange(start as int, n) == t.subrange(0, i - start).push(b) + t.subrange(
                i - start,
                t.len() as int,
            ),
            forall|j: int| 0 <= j < i - start ==> t[j] < b,
            sorted(t),
            t.len() == n - start - 1,
            b == old(arr)@[start as int],
        ensures
            start <= i < arr@.len(),
            arr@.len() == n,
            arr@.subrange(0, start as int) == old(arr)@.subrange(0, start as int),
            arr@.subrange(start as int, n) == t.subrange(0, i - start).push(b) + t.subrange(
                i - start,
                t.len() as int,
            ),
            inserted_at(t, b, i - start),
        decreases arr@.len() - i,
    {
        proof {
            let tail = arr@.subrange(start as int, n);
            let pre = t.subrange(0, i - start);
            assert(tail[i - start] == (pre.push(b) + t.subrange(i - start, t.len() as int))[i - start]);
            assert(tail[i - start] == b);
            assert(tail[i - start + 1] == t[i - start]);
            assert(arr@[i as int] == tail[i - start]);
            assert(arr@[i + 1] == tail[i - start + 1]);
        }
        if arr[i] > arr[i + 1] {
            let ghost before = arr@;
            let x = arr[i + 1];
            arr.set(i + 1, arr[i]);
            arr.set(i, x);
            proof {
                assert(before[i + 1] == t[i - start]);
                assert(before[i as int] == b);
                assert(arr@.subrange(0, start as int) =~= before.subrange(0, start as int));
                let old_tail = before.subrange(start as int, n);
                let k = i - start;
                assert forall|j: int| 0 <= j < n - start implies #[trigger] old_tail[j] == (if j < k {
                    t[j]
                } else if j == k {
                    b
                } else {
                    t[j - 1]
                }) by {
                    let pre = t.subrange(0, k);
                    assert(old_tail == pre.push(b) + t.subrange(k, t.len() as int));
                    if j < k {
                        assert(old_tail[j] == pre.push(b)[j]);
                    } else if j > k {
                        assert(old_tail[j] == t.subrange(k, t.len() as int)[j - k - 1]);
                    }
                }
                assert forall|j: int| 0 <= j < n - start implies #[trigger] arr@[start + j] == (if j < k + 1 {
                    t[j]
                } else if j == k + 1 {
                    b
                } else {
                    t[j - 1]
                }) by {
                    assert(old_tail[j] == before[start + j]);
                }
                let pre2 = t.subrange(0, k + 1);
                let target = pre2.push(b) + t.subrange(k + 1, t.len() as int);
                assert forall|j: int| 0 <= j < n - start implies #[trigger] target[j] == (if j < k + 1 {
                    t[j]
                } else if j == k + 1 {
                    b
                } else {
                    t[j - 1]
                }) by {
                    if j < k + 1 {
                        assert(target[j] == pre2.push(b)[j]);
                    } else if j > k + 1 {
                        assert(target[j] == t.subrange(k + 1, t.len() as int)[j - k - 2]);
                    }
                }
                assert(target.len() == n - start);
                assert forall|j: int| 0 <= j < n - start implies #[trigger] arr@.subrange(start as int, n)[j] == target[j] by {
                    assert(arr@.subrange(start as int, n)[j] == arr@[start + j]);
                }
                assert(arr@.subrange(start as int, n) =~= target);
            }
            i += 1;
        } else {
            proof {
                assert(arr@[i + 1] == t[i - start]);
            }
            break;
        }
    }
    proof {
        if i + 1 >= arr@.len() {
            assert(i - start == t.len());
        }
        let k = i - start;
        assert(arr@.subrange(start as int, n) == t.subrange(0, k).push(b) + t.subrange(k, t.len() as int));
        assert(t.subrange(0, k) =~= old(arr)@.subrange(start + 1, start + 1 + k));
        assert(t.subrange(k, t.len() as int) =~= old(arr)@.subrange(start + 1 + k, n));
    }
}

/// Every element of `l` before `li` is below every element of `m`.
pub open spec fn below_all(l: Seq<u32>, li: int, m: Seq<u32>) -> bool {
    forall|k: int, j: int| 0 <= k < li && 0 <= j < m.len() ==> l[k] < m[j]
}

/// A value that `m` holds twice in a row is not in `l`.
pub open spec fn dup_free_of(m: Seq<u32>, l: Seq<u32>) -> bool {
    forall|j: int| 0 <= j < m.len() - 1 && m[j] == m[j + 1] ==> !l.contains(#[trigger] m[j])
}

/// No value stands three times in a row in `m`.
pub open spec fn no_triple(m: Seq<u32>) -> bool {
    forall|j: int| 0 <= j < m.len() - 2 ==> !(m[j] == m[j + 1] && #[trigger] m[j + 1] == m[j + 2])
}

proof fn lemma_sorted_strict_no_dups(m: Seq<u32>, l: Seq<u32>)
    requires
        strictly_sorted(m),
    ensures
        sorted(m),
        dup_free_of(m, l),
        no_triple(m),
{
    assert forall|j: int| 0 <= j < m.len() - 1 && m[j] == m[j + 1] implies !l.contains(#[trigger] m[j]) by {
        assert(m[j] < m[j + 1]);
    }
}

proof fn lemma_strict_index_unique(l: Seq<u32>, i: int, j: int)
    requires
        strictly_sorted(l),
        0 <= i < l.len(),
        0 <= j < l.len(),
        l[i] == l[j],
    ensures
        i == j,
{
    if i < j {
        assert(l[i] < l[j]);
    } else if j < i {
        assert(l[j] < l[i]);
    }
}

proof fn lemma_swap_order(l: Seq<u32>, m: Seq<u32>, li: int, k: int)
    requires
        strictly_sorted(l),
        0 <= li < l.len(),
        m.len() > 0,
        sorted(m),
        m[0] < l[li],
        below_all(l, li, m),
        dup_free_of(m, l),
        no_triple(m),
        inserted_at(m.drop_first(), l[li], k),
    ensures
        ({
            let t = m.drop_first();
            let l2 = l.update(li, m[0]);
            let m2 = t.subrange(0, k).push(l[li]) + t.subrange(k, t.len() as int);
            &&& strictly_sorted(l2)
            &&& sorted(m2)
            &&& m2.len() == m.len()
            &&& below_all(l2, li, m2)
            &&& m2[0] >= l2[li]
        }),
{
    let a = m[0];
    let b = l[li];
    let t = m.drop_first();
    let l2 = l.update(li, a);
    let m2 = t.subrange(0, k).push(b) + t.subrange(k, t.len() as int);
    assert forall|j: int| 0 <= j < m2.len() implies #[trigger] m2[j] == (if j < k {
        t[j]
    } else if j == k {
        b
    } else {
        t[j - 1]
    }) by {
        if j < k {
            assert(m2[j] == t.subrange(0, k).push(b)[j]);
        } else if j > k {
            assert(m2[j] == t.subrange(k, t.len() as int)[j - k - 1]);
        }
    }
    assert(forall|j: int| 0 <= j < t.len() ==> #[trigger] t[j] == m[j + 1]);
    // left stays strictly sorted
    if li > 0 {
        assert(l[li - 1] < m[0]);
    }
    assert forall|i: int, j: int| 0 <= i < j < l2.len() implies l2[i] < l2[j] by {
        if i == li {
            assert(l[li] < l[j]);
        } else if j == li {
            assert(l[i] < m[0]);
        } else {
            assert(l[i] < l[j]);
        }
    }
    // the pending part stays sorted
    assert forall|i: int, j: int| 0 <= i <= j < m2.len() implies m2[i] <= m2[j] by {
        if i < k && j < k {
            assert(m[i + 1] <= m[j + 1]);
        } else if i < k && j == k {
        } else if i < k && j > k {
            assert(m[i + 1] <= m[j]);
        } else if i == k && j > k {
            assert(t[k] >= b);
            assert(m[k + 1] <= m[j]);
        } else if i > k && j > k {
            assert(m[i] <= m[j]);
        }
    }
    // the settled part stays below the pending one
    assert forall|kk: int, j: int| 0 <= kk < li && 0 <= j < m2.len() implies l2[kk] < m2[j] by {
        assert(l[kk] < l[li]);
        if j < k {
            assert(l[kk] < m[j + 1]);
        } else if j > k {
            assert(l[kk] < m[j]);
        }
    }
    // the new pending head is not below the new left element
    if k == 0 {
        assert(m2[0] == b);
    } else {
        assert(m2[0] == m[1]);
        assert(m[0] <= m[1]);
    }
}

#[verifier::rlimit(40)]
proof fn lemma_swap_dups(l: Seq<u32>, m: Seq<u32>, li: int, k: int)
    requires
        strictly_sorted(l),
        0 <= li < l.len(),
        m.len() > 0,
        sorted(m),
        m[0] < l[li],
        below_all(l, li, m),
        dup_free_of(m, l),
        no_triple(m),
        inserted_at(m.drop_first(), l[li], k),
    ensures
        ({
            let t = m.drop_first();
            let l2 = l.update(li, m[0]);
            let m2 = t.subrange(0, k).push(l[li]) + t.subrange(k, t.len() as int);
            &&& dup_free_of(m2, l2)
            &&& no_triple(m2)
        }),
{
    let a = m[0];
    let b = l[li];
    let t = m.drop_first();
    let l2 = l.update(li, a);
    let m2 = t.subrange(0, k).push(b) + t.subrange(k, t.len() as int);
    assert forall|j: int| 0 <= j < m2.len() implies #[trigger] m2[j] == (if j < k {
        t[j]
    } else if j == k {
        b
    } else {
        t[j - 1]
    }) by {
        if j < k {
            assert(m2[j] == t.subrange(0, k).push(b)[j]);
        } else if j > k {
            assert(m2[j] == t.subrange(k, t.len() as int)[j - k - 1]);
        }
    }
    assert(forall|j: int| 0 <= j < t.len() ==> #[trigger] t[j] == m[j + 1]);
    // b is no longer in the left
    assert(!l2.contains(b)) by {
        if l2.contains(b) {
            let i = choose|i: int| 0 <= i < l2.len() && l2[i] == b;
            if i != li {
                lemma_strict_index_unique(l, i, li);
            }
        }
    }
    // a value doubled in the new pending part is not in the new left
    assert forall|j: int| 0 <= j < m2.len() - 1 && m2[j] == m2[j + 1] implies !l2.contains(
        #[trigger] m2[j],
    ) by {
        if j == k || j + 1 == k {
            if j + 1 == k {
                assert(t[j] < b);
            }
        } else {
            let w = m2[j];
            let oj = if j < k { j + 1 } else { j };
            assert(m[oj] == w && m[oj + 1] == w);
            assert(!l.contains(m[oj]));
            if w == a {
                assert(m[0] <= m[1]);
                assert(m[1] <= m[oj]);
                assert(m[1] == a);
                assert(m[2] <= m[oj + 1]);
                assert(m[1] <= m[2]);
                assert(m[0] == m[1] && m[1] == m[2]);
            }
            if l2.contains(w) {
                let i = choose|i: int| 0 <= i < l2.len() && l2[i] == w;
                if i != li {
                    assert(l.contains(w));
                }
            }
        }
    }
    // no value three times in a row
    assert forall|j: int| 0 <= j < m2.len() - 2 implies !(m2[j] == m2[j + 1] && #[trigger] m2[j + 1]
        == m2[j + 2]) by {
        if j <= k && k <= j + 2 {
            if j + 1 == k || j + 2 == k {
                if j + 2 == k {
                    assert(t[j + 1] < b);
                } else {
                    assert(t[j] < b);
                }
            } else {
                // j == k: b, t[k], t[k+1]
                if m2[j] == m2[j + 1] && m2[j + 1] == m2[j + 2] {
                    assert(m[k + 1] == b && m[k + 2] == b);
                    assert(l.contains(b));
                    assert(!l.contains(m[k + 1]));
                }
            }
        } else {
            let oj = if j + 2 < k { j + 1 } else { j };
            assert(m2[j] == m[oj] && m2[j + 1] == m[oj + 1] && m2[j + 2] == m[oj + 2]);
        }
    }
}

proof fn lemma_swap_union(l: Seq<u32>, m: Seq<u32>, li: int, k: int)
    requires
        strictly_sorted(l),
        0 <= li < l.len(),
        m.len() > 0,
        sorted(m),
        m[0] < l[li],
        below_all(l, li, m),
        dup_free_of(m, l),
        no_triple(m),
        inserted_at(m.drop_first(), l[li], k),
    ensures
        ({
            let t = m.drop_first();
            let l2 = l.update(li, m[0]);
            let m2 = t.subrange(0, k).push(l[li]) + t.subrange(k, t.len() as int);
            &&& l2.to_set().union(m2.to_set()) == l.to_set().union(m.to_set())
        }),
{
    let a = m[0];
    let b = l[li];
    let t = m.drop_first();
    let l2 = l.update(li, a);
    let m2 = t.subrange(0, k).push(b) + t.subrange(k, t.len() as int);
    assert forall|j: int| 0 <= j < m2.len() implies #[trigger] m2[j] == (if j < k {
        t[j]
    } else if j == k {
        b
    } else {
        t[j - 1]
    }) by {
        if j < k {
            assert(m2[j] == t.subrange(0, k).push(b)[j]);
        } else if j > k {
            assert(m2[j] == t.subrange(k, t.len() as int)[j - k - 1]);
        }
    }
    assert(forall|j: int| 0 <= j < t.len() ==> #[trigger] t[j] == m[j + 1]);
    // the union of values is unchanged
    assert forall|x: u32| l2.to_set().union(m2.to_set()).contains(x) == l.to_set().union(
        m.to_set(),
    ).contains(x) by {
        if l2.contains(x) {
            let i = choose|i: int| 0 <= i < l2.len() && l2[i] == x;
            if i == li {
                assert(m.contains(x));
            } else {
                assert(l.contains(x));
            }
        }
        if m2.contains(x) {
            let j = choose|j: int| 0 <= j < m2.len() && m2[j] == x;
            if j == k {
                assert(l.contains(x));
            } else if j < k {
                assert(m[j + 1] == x);
            } else {
                assert(m[j] == x);
            }
        }
        if l.contains(x) {
            let i = choose|i: int| 0 <= i < l.len() && l[i] == x;
            if i == li {
                assert(m2[k] == x);
            } else {
                assert(l2[i] == x);
            }
        }
        if m.contains(x) {
            let j = choose|j: int| 0 <= j < m.len() && m[j] == x;
            if j == 0 {
                assert(l2[li] == x);
            } else if j - 1 < k {
                assert(m2[j - 1] == x);
            } else {
                assert(m2[j] == x);
            }
        }
    }
    assert(l2.to_set().union(m2.to_set()) =~= l.to_set().union(m.to_set()));
}

/// One swap of the in-place merge: the head `a` of the pending right part takes the place
/// of the larger `l[li]`, which is inserted into the rest of the pending part.
proof fn lemma_swap_step(l: Seq<u32>, m: Seq<u32>, li: int, k: int)
    requires
        strictly_sorted(l),
        0 <= li < l.len(),
        m.len() > 0,
        sorted(m),
        m[0] < l[li],
        below_all(l, li, m),
        dup_free_of(m, l),
        no_triple(m),
        inserted_at(m.drop_first(), l[li], k),
    ensures
        ({
            let t = m.drop_first();
            let l2 = l.update(li, m[0]);
            let m2 = t.subrange(0, k).push(l[li]) + t.subrange(k, t.len() as int);
            &&& strictly_sorted(l2)
            &&& sorted(m2)
            &&& m2.len() == m.len()
            &&& below_all(l2, li, m2)
            &&& dup_free_of(m2, l2)
            &&& no_triple(m2)
            &&& l2.to_set().union(m2.to_set()) == l.to_set().union(m.to_set())
            &&& m2[0] >= l2[li]
        }),
{
    lemma_swap_order(l, m, li, k);
    lemma_swap_dups(l, m, li, k);
    lemma_swap_union(l, m, li, k);
}

/// Merges the strictly sorted `right_vec` into the strictly sorted `left_vec`, in place:
/// the result is strictly sorted and holds exactly the values of both.
pub fn merge_into_sorted_vec(left_vec: &mut Vec<u32>, right_vec: Vec<u32>)
    requires
        strictly_sorted(old(left_vec)@),
        strictly_sorted(right_vec@),
    ensures
        strictly_sorted(final(left_vec)@),
        final(left_vec)@.to_set() == old(left_vec)@.to_set().union(right_vec@.to_set()),
{
    let mut right_vec = right_vec;
    let ghost u = old(left_vec)@.to_set().union(right_vec@.to_set());
    if left_vec.len() == 0 {
        proof {
            assert(old(left_vec)@.to_set() =~= Set::empty());
            assert(u =~= right_vec@.to_set());
        }
        *left_vec = right_vec;
        return;
    }
    if right_vec.len() == 0 {
        proof {
            assert(right_vec@.to_set() =~= Set::empty());
            assert(u =~= left_vec@.to_set());
        }
        return;
    }
    let nl = left_vec.len();
    let nr = right_vec.len();
    let mut li: usize = 0;
    let mut ri: usize = 0;
    proof {
        assert(right_vec@.subrange(0, nr as int) =~= right_vec@);
        lemma_sorted_strict_no_dups(right_vec@, left_vec@);
    }
    loop
        invariant_except_break
            li < nl && ri < nr,
        invariant
            left_vec@.len() == nl,
            right_vec@.len() == nr,
            li <= nl,
            ri <= nr,
            strictly_sorted(left_vec@),
            sorted(right_vec@.subrange(ri as int, nr as int)),
            below_all(left_vec@, li as int, right_vec@.subrange(ri as int, nr as int)),
            dup_free_of(right_vec@.subrange(ri as int, nr as int), left_vec@),
            no_triple(right_vec@.subrange(ri as int, nr as int)),
            left_vec@.to_set().union(right_vec@.subrange(ri as int, nr as int).to_set()) == u,
        ensures
            li == nl || ri == nr,
        decreases 2 * ((nl - li) + (nr - ri)) + (if li < nl && ri < nr && right_vec@[ri as int]
            < left_vec@[li as int] {
            1int
        } else {
            0int
        }),
    {
        let ghost m = right_vec@.subrange(ri as int, nr as int);
        if left_vec[li] == right_vec[ri] {
            proof {
                let m1 = right_vec@.subrange(ri + 1, nr as int);
                assert(m1 =~= m.drop_first());
                assert(left_vec@.contains(m[0]));
                assert forall|j: int| 0 <= j < m1.len() implies left_vec@[li as int] < #[trigger] m1[j] by {
                    assert(m[0] <= m[j + 1]);
                    if m[0] == m[j + 1] {
                        assert(m[0] <= m[1]);
                        assert(m[1] <= m[j + 1]);
                        assert(m[0] == m[1]);
                        assert(!left_vec@.contains(m[0]));
                    }
                }
                assert(left_vec@.to_set().union(m1.to_set()) =~= u) by {
                    assert forall|x: u32| m.to_set().contains(x) implies left_vec@.to_set().union(
                        m1.to_set(),
                    ).contains(x) by {
                        let j = choose|j: int| 0 <= j < m.len() && m[j] == x;
                        if j > 0 {
                            assert(m1[j - 1] == x);
                        }
                    }
                    assert forall|x: u32| m1.to_set().contains(x) implies m.to_set().contains(x) by {
                        let j = choose|j: int| 0 <= j < m1.len() && m1[j] == x;
                        assert(m[j + 1] == x);
                    }
                }
            }
            ri += 1;
            li += 1;
        } else if right_vec[ri] < left_vec[li] {
            let ghost l_before = left_vec@;
            let a = right_vec[ri];
            let b = left_vec[li];
            left_vec.set(li, a);
            right_vec.set(ri, b);
            proof {
                assert(right_vec@.subrange(ri + 1, nr as int) =~= m.drop_first());
            }
            let ghost r_set = right_vec@;
            movin_on_up(&mut right_vec, ri);
            proof {
                let t = r_set.subrange(ri + 1, nr as int);
                assert(t =~= m.drop_first());
                let k = choose|k: int| #[trigger] inserted_at(t, r_set[ri as int], k) && right_vec@.subrange(
                    ri as int,
                    nr as int,
                ) == r_set.subrange(ri + 1, ri + 1 + k).push(r_set[ri as int]) + r_set.subrange(ri + 1 + k, nr as int);
                assert(r_set.subrange(ri + 1, ri + 1 + k) =~= t.subrange(0, k));
                assert(r_set.subrange(ri + 1 + k, nr as int) =~= t.subrange(k, t.len() as int));
                lemma_swap_step(l_before, m, li as int, k);
                assert(left_vec@ =~= l_before.update(li as int, m[0]));
            }
        } else {
            proof {
                assert forall|kk: int, j: int| 0 <= kk < li + 1 && 0 <= j < m.len() implies left_vec@[kk]
                    < m[j] by {
                    if kk == li {
                        assert(m[0] <= m[j]);
                    }
                }
            }
            li += 1;
        }
        if li == nl || ri == nr {
            break;
        }
    }
    if ri < right_vec.len() {
        if left_vec[li - 1] == right_vec[ri] {
            proof {
                let m = right_vec@.subrange(ri as int, nr as int);
                assert(left_vec@[li - 1] < m[0]);
            }
            ri += 1;
        }
    }
    proof {
        if ri < nr {
            let m = right_vec@.subrange(ri as int, nr as int);
            assert(left_vec@[nl - 1] < m[0]);
        }
    }
    let mut i = ri;
    while i < right_vec.len()
        invariant
            ri <= i <= nr,
            right_vec@.len() == nr,
            left_vec@.len() > 0,
            strictly_sorted(left_vec@),
            sorted(right_vec@.subrange(ri as int, nr as int)),
            i < nr ==> left_vec@.last() <= right_vec@[i as int],
            left_vec@.to_set().union(right_vec@.subrange(i as int, nr as int).to_set()) == u,
        decreases nr - i,
    {
        let ghost m = right_vec@.subrange(i as int, nr as int);
        let ghost mr = right_vec@.subrange(ri as int, nr as int);
        let nval = right_vec[i];
        let last = left_vec[left_vec.len() - 1];
        proof {
            assert(m.drop_first() =~= right_vec@.subrange(i + 1, nr as int));
            assert(m[0] == nval);
        }
        if nval == last {
            proof {
                assert(left_vec@.contains(nval));
                assert(left_vec@.to_set().union(m.drop_first().to_set()) =~= u) by {
                    assert forall|x: u32| m.to_set().contains(x) implies left_vec@.to_set().union(
                        m.drop_first().to_set(),
                    ).contains(x) by {
                        let j = choose|j: int| 0 <= j < m.len() && m[j] == x;
                        if j > 0 {
                            assert(m.drop_first()[j - 1] == x);
                        }
                    }
                    assert forall|x: u32| m.drop_first().to_set().contains(x) implies m.to_set().contains(x) by {
                        let j = choose|j: int| 0 <= j < m.drop_first().len() && m.drop_first()[j] == x;
                        assert(m[j + 1] == x);
                    }
                }
            }
        } else {
            let ghost before = left_vec@;
            left_vec.push(nval);
            proof {
                assert forall|a: int, c: int| 0 <= a < c < left_vec@.len() implies left_vec@[a] < left_vec@[c] by {
                    if c == left_vec@.len() - 1 {
                        assert(before[a] <= before.last());
                    } else {
                        assert(before[a] < before[c]);
                    }
                }
                assert(left_vec@.to_set().union(m.drop_first().to_set()) =~= u) by {
                    assert forall|x: u32| m.to_set().contains(x) implies left_vec@.to_set().union(
                        m.drop_first().to_set(),
                    ).contains(x) by {
                        let j = choose|j: int| 0 <= j < m.len() && m[j] == x;
                        if j > 0 {
                            assert(m.drop_first()[j - 1] == x);
                        } else {
                            assert(left_vec@[left_vec@.len() - 1] == x);
                        }
                    }
                    assert forall|x: u32| left_vec@.to_set().contains(x) implies before.to_set().union(
                        m.to_set(),
                    ).contains(x) by {
                        let j = choose|j: int| 0 <= j < left_vec@.len() && left_vec@[j] == x;
                        if j < before.len() {
                            assert(before[j] == x);
                        } else {
                            assert(m[0] == x);
                        }
                    }
                    assert forall|x: u32| m.drop_first().to_set().contains(x) implies m.to_set().contains(x) by {
                        let j = choose|j: int| 0 <= j < m.drop_first().len() && m.drop_first()[j] == x;
                        assert(m[j + 1] == x);
                    }
                    assert forall|x: u32| before.to_set().contains(x) implies left_vec@.to_set().contains(x) by {
                        let j = choose|j: int| 0 <= j < before.len() && before[j] == x;
                        assert(left_vec@[j] == x);
                    }
                }
            }
        }
        proof {
            if i + 1 < nr {
                assert(mr[i - ri] <= mr[i + 1 - ri]);
            }
        }
        i += 1;
    }
    proof {
        assert(right_vec@.subrange(i as int, nr as int).to_set() =~= Set::empty());
        assert(left_vec@.to_set().union(Set::empty()) =~= left_vec@.to_set());
    }
}

/// Merges a boxed sorted array into a sorted vector.
pub fn merge_box_into_sorted_vec(left_vec: &mut Vec<u32>, right_barr: &Vec<u32>)
    requires
        strictly_sorted(old(left_vec)@),
        strictly_sorted(right_barr@),
    ensures
        strictly_sorted(final(left_vec)@),
        final(left_vec)@.to_set() == old(left_vec)@.to_set().union(right_barr@.to_set()),
{
    merge_into_sorted_vec(left_vec, right_barr.clone());
}

proof fn lemma_merged_values_unfold(l: Seq<u32>, r: Seq<u32>)
    requires
        l.len() > 0 || r.len() > 0,
    ensures
        l.len() == 0 ==> merged_values(l, r) == seq![r[0]] + merged_values(l, r.drop_first()),
        l.len() > 0 && r.len() == 0 ==> merged_values(l, r) == seq![l[0]] + merged_values(
            l.drop_first(),
            r,
        ),
        l.len() > 0 && r.len() > 0 && l[0] == r[0] ==> merged_values(l, r) == seq![l[0]]
            + merged_values(l.drop_first(), r.drop_first()),
        l.len() > 0 && r.len() > 0 && r[0] < l[0] ==> merged_values(l, r) == seq![r[0]]
            + merged_values(l, r.drop_first()),
        l.len() > 0 && r.len() > 0 && l[0] < r[0] ==> merged_values(l, r) == seq![l[0]]
            + merged_values(l.drop_first(), r),
{
    let f = |c: (MergeSide, u32)| c.1;
    if l.len() == 0 {
        let g = |e: u32| (MergeSide::Right, e);
        assert(merge_calls(l, r) =~= seq![(MergeSide::Right, r[0])] + merge_calls(l, r.drop_first())) by {
            if r.drop_first().len() == 0 {
                assert(merge_calls(l, r.drop_first()) =~= Seq::empty());
            }
        }
    } else if r.len() == 0 {
        assert(merge_calls(l, r) =~= seq![(MergeSide::Left, l[0])] + merge_calls(l.drop_first(), r)) by {
            if l.drop_first().len() == 0 {
                assert(merge_calls(l.drop_first(), r) =~= Seq::empty());
            }
        }
    }
    let c = merge_calls(l, r);
    assert(c.len() > 0) by {
        if l.len() == 0 {
            assert(c == r.map_values(|e: u32| (MergeSide::Right, e)));
        } else if r.len() == 0 {
            assert(c == l.map_values(|e: u32| (MergeSide::Left, e)));
        }
    }
    assert(c.map_values(f) =~= seq![c[0].1] + c.drop_first().map_values(f));
}

proof fn lemma_merged_values_members(l: Seq<u32>, r: Seq<u32>)
    ensures
        forall|x: u32| #[trigger] merged_values(l, r).contains(x) ==> l.contains(x) || r.contains(x),
        forall|x: u32| l.contains(x) || r.contains(x) ==> #[trigger] merged_values(l, r).contains(x),
    decreases l.len() + r.len(),
{
    if l.len() == 0 && r.len() == 0 {
        assert(merged_values(l, r) =~= Seq::empty());
    } else {
        lemma_merged_values_unfold(l, r);
        let mv = merged_values(l, r);
        if l.len() == 0 || (r.len() > 0 && r[0] < l[0]) {
            let rest = merged_values(l, r.drop_first());
            lemma_merged_values_members(l, r.drop_first());
            assert forall|x: u32| mv.contains(x) implies l.contains(x) || r.contains(x) by {
                let i = choose|i: int| 0 <= i < mv.len() && mv[i] == x;
                if i > 0 {
                    assert(mv[i] == rest[i - 1]);
                    assert(rest.contains(x));
                    assert(l.contains(x) || r.drop_first().contains(x));
                    if r.drop_first().contains(x) {
                        let j = choose|j: int| 0 <= j < r.drop_first().len() && r.drop_first()[j] == x;
                        assert(r[j + 1] == x);
                    }
                } else {
                    assert(r[0] == x);
                    assert(r.contains(x));
                }
            }
            assert forall|x: u32| l.contains(x) || r.contains(x) implies mv.contains(x) by {
                if r.contains(x) && !l.contains(x) {
                    let j = choose|j: int| 0 <= j < r.len() && r[j] == x;
                    if j > 0 {
                        assert(r.drop_first()[j - 1] == x);
                    } else {
                        assert(mv[0] == x);
                    }
                }
                if rest.contains(x) {
                    let i = choose|i: int| 0 <= i < rest.len() && rest[i] == x;
                    assert(mv[i + 1] == x);
                } else {
                    assert(mv[0] == x);
                }
            }
        } else if r.len() == 0 || l[0] < r[0] {
            let rest = merged_values(l.drop_first(), r);
            lemma_merged_values_members(l.drop_first(), r);
            assert forall|x: u32| mv.contains(x) implies l.contains(x) || r.contains(x) by {
                let i = choose|i: int| 0 <= i < mv.len() && mv[i] == x;
                if i > 0 {
                    assert(mv[i] == rest[i - 1]);
                    assert(rest.contains(x));
                    if l.drop_first().contains(x) {
                        let j = choose|j: int| 0 <= j < l.drop_first().len() && l.drop_first()[j] == x;
                        assert(l[j + 1] == x);
                    }
                } else {
                    assert(l[0] == x);
                    assert(l.contains(x));
                }
            }
            assert forall|x: u32| l.contains(x) || r.contains(x) implies mv.contains(x) by {
                if l.contains(x) {
                    let j = choose|j: int| 0 <= j < l.len() && l[j] == x;
                    if j > 0 {
                        assert(l.drop_first()[j - 1] == x);
                    }
                }
                if rest.contains(x) {
                    let i = choose|i: int| 0 <= i < rest.len() && rest[i] == x;
                    assert(mv[i + 1] == x);
                } else {
                    assert(mv[0] == x);
                }
            }
        } else {
            let rest = merged_values(l.drop_first(), r.drop_first());
            lemma_merged_values_members(l.drop_first(), r.drop_first());
            assert forall|x: u32| mv.contains(x) implies l.contains(x) || r.contains(x) by {
                let i = choose|i: int| 0 <= i < mv.len() && mv[i] == x;
                if i > 0 {
                    assert(mv[i] == rest[i - 1]);
                    assert(rest.contains(x));
                    if l.drop_first().contains(x) {
                        let j = choose|j: int| 0 <= j < l.drop_first().len() && l.drop_first()[j] == x;
                        assert(l[j + 1] == x);
                    } else {
                        let j = choose|j: int| 0 <= j < r.drop_first().len() && r.drop_first()[j] == x;
                        assert(r[j + 1] == x);
                    }
                } else {
                    assert(l[0] == x);
                    assert(l.contains(x));
                }
            }
            assert forall|x: u32| l.contains(x) || r.contains(x) implies mv.contains(x) by {
                if l.contains(x) {
                    let j = choose|j: int| 0 <= j < l.len() && l[j] == x;
                    if j > 0 {
                        assert(l.drop_first()[j - 1] == x);
                    }
                }
                if r.contains(x) {
                    let j = choose|j: int| 0 <= j < r.len() && r[j] == x;
                    if j > 0 {
                        assert(r.drop_first()[j - 1] == x);
                    }
                }
                if rest.contains(x) {
                    let i = choose|i: int| 0 <= i < rest.len() && rest[i] == x;
                    assert(mv[i + 1] == x);
                } else {
                    assert(mv[0] == x);
                }
            }
        }
    }
}

proof fn lemma_merged_values_sorted(l: Seq<u32>, r: Seq<u32>)
    requires
        strictly_sorted(l),
        strictly_sorted(r),
    ensures
        strictly_sorted(merged_values(l, r)),
    decreases l.len() + r.len(),
{
    if l.len() == 0 && r.len() == 0 {
        assert(merged_values(l, r) =~= Seq::empty());
    } else {
        lemma_merged_values_unfold(l, r);
        let mv = merged_values(l, r);
        let (l2, r2) = if l.len() == 0 || (r.len() > 0 && r[0] < l[0]) {
            (l, r.drop_first())
        } else if r.len() == 0 || l[0] < r[0] {
            (l.drop_first(), r)
        } else {
            (l.drop_first(), r.drop_first())
        };
        let rest = merged_values(l2, r2);
        assert(mv == seq![mv[0]] + rest);
        lemma_merged_values_sorted(l2, r2);
        lemma_merged_values_members(l2, r2);
        assert forall|i: int| 0 <= i < rest.len() implies mv[0] < #[trigger] rest[i] by {
            assert(rest.contains(rest[i]));
            if l2.contains(rest[i]) {
                let j = choose|j: int| 0 <= j < l2.len() && l2[j] == rest[i];
                if l2 == l {
                    assert(r[0] < l[0]);
                    assert(l[0] <= l[j]);
                } else {
                    assert(l[0] < l[j + 1]);
                }
            } else {
                let j = choose|j: int| 0 <= j < r2.len() && r2[j] == rest[i];
                if r2 == r {
                    assert(l[0] < r[0]);
                    assert(r[0] <= r[j]);
                } else {
                    assert(r[0] < r[j + 1]);
                }
            }
        }
        assert forall|a: int, b: int| 0 <= a < b < mv.len() implies mv[a] < mv[b] by {
            if a == 0 {
                assert(mv[b] == rest[b - 1]);
            } else {
                assert(mv[a] == rest[a - 1] && mv[b] == rest[b - 1]);
            }
        }
    }
}

proof fn lemma_strict_same_set_equal(s1: Seq<u32>, s2: Seq<u32>)
    requires
        strictly_sorted(s1),
        strictly_sorted(s2),
        s1.to_set() == s2.to_set(),
    ensures
        s1 == s2,
    decreases s1.len(),
{
    if s1.len() == 0 {
        if s2.len() > 0 {
            assert(s2.to_set().contains(s2[0]));
        }
        assert(s1 =~= s2);
    } else {
        if s2.len() == 0 {
            assert(s1.to_set().contains(s1[0]));
        }
        assert(s1.to_set().contains(s1[0]));
        assert(s2.to_set().contains(s2[0]));
        let j = choose|j: int| 0 <= j < s2.len() && s2[j] == s1[0];
        let i = choose|i: int| 0 <= i < s1.len() && s1[i] == s2[0];
        assert(s1[0] <= s1[i]);
        assert(s2[0] <= s2[j]);
        assert(s1[0] == s2[0]);
        let t1 = s1.drop_first();
        let t2 = s2.drop_first();
        assert forall|x: u32| t1.to_set().contains(x) implies t2.to_set().contains(x) by {
            let a = choose|a: int| 0 <= a < t1.len() && t1[a] == x;
            assert(s1[0] < s1[a + 1]);
            assert(s2.to_set().contains(x));
            let b = choose|b: int| 0 <= b < s2.len() && s2[b] == x;
            assert(b != 0);
            assert(t2[b - 1] == x);
        }
        assert forall|x: u32| t2.to_set().contains(x) implies t1.to_set().contains(x) by {
            let a = choose|a: int| 0 <= a < t2.len() && t2[a] == x;
            assert(s2[0] < s2[a + 1]);
            assert(s1.to_set().contains(x));
            let b = choose|b: int| 0 <= b < s1.len() && s1[b] == x;
            assert(b != 0);
            assert(t1[b - 1] == x);
        }
        assert(t1.to_set() =~= t2.to_set());
        lemma_strict_same_set_equal(t1, t2);
        assert(s1 =~= seq![s1[0]] + t1);
        assert(s2 =~= seq![s2[0]] + t2);
    }
}

/// For strictly sorted inputs, merging the two sorted sequences yields a strictly sorted
/// sequence of exactly their values, so it is the one result the in-place merge can have:
/// both merges agree.
pub proof fn law_merges_agree(l: Seq<u32>, r: Seq<u32>, out: Seq<u32>)
    requires
        strictly_sorted(l),
        strictly_sorted(r),
        strictly_sorted(out),
        out.to_set() == l.to_set().union(r.to_set()),
    ensures
        strictly_sorted(merged_values(l, r)),
        merged_values(l, r).to_set() == l.to_set().union(r.to_set()),
        out == merged_values(l, r),
{
    lemma_merged_values_sorted(l, r);
    lemma_merged_values_members(l, r);
    let mv = merged_values(l, r);
    assert forall|x: u32| mv.to_set().contains(x) == l.to_set().union(r.to_set()).contains(x) by {
        assert(mv.to_set().contains(x) == mv.contains(x));
    }
    assert(mv.to_set() =~= l.to_set().union(r.to_set()));
    lemma_strict_same_set_equal(out, mv);
}

} // verus!
