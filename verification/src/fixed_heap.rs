use vstd::prelude::*;

verus! {

broadcast use vstd::seq_lib::group_to_multiset_ensures;

/// A type with a largest value.
pub trait Maxed: Sized {
    fn max_value() -> Self;
}

/// A type with a smallest value.
pub trait Mined: Sized {
    fn min_value() -> Self;
}

/// The index of the parent of `k` in an array laid out as a binary tree.
pub open spec fn parent(k: int) -> int {
    (k - 1) / 2
}

/// Whether `k` lies in the subtree rooted at `c`.
pub open spec fn in_subtree(k: int, c: int) -> bool
    decreases k,
{
    if k < c || c < 0 {
        false
    } else if k == c {
        true
    } else if k <= 0 {
        false
    } else {
        in_subtree(parent(k), c)
    }
}

/// Inside the subtree rooted at `c` and below `limit`, no element is larger than its parent.
pub open spec fn heap_in(a: Seq<u32>, c: int, limit: int) -> bool {
    forall|k: int| 0 < k < limit && k != c && #[trigger] in_subtree(k, c) ==> a[parent(k)] >= a[k]
}

proof fn lemma_subtree_basics(k: int, c: int)
    ensures
        in_subtree(k, c) ==> k >= c,
        in_subtree(k, c) && k != c ==> k >= 2 * c + 1 && in_subtree(parent(k), c),
        c >= 0 && (k == 2 * c + 1 || k == 2 * c + 2) ==> in_subtree(k, c),
    decreases k,
{
    if c >= 0 && (k == 2 * c + 1 || k == 2 * c + 2) {
        assert(parent(k) == c);
        assert(in_subtree(c, c));
    }
    if in_subtree(k, c) && k != c {
        lemma_subtree_basics(parent(k), c);
    }
}

proof fn lemma_subtree_of_child(k: int, c: int)
    requires
        c >= 0,
        in_subtree(k, c),
        k != c,
    ensures
        in_subtree(k, 2 * c + 1) || in_subtree(k, 2 * c + 2),
    decreases k,
{
    if parent(k) == c {
        assert(k == 2 * c + 1 || k == 2 * c + 2);
        lemma_subtree_basics(k, 2 * c + 1);
        lemma_subtree_basics(k, 2 * c + 2);
    } else {
        lemma_subtree_basics(k, c);
        lemma_subtree_of_child(parent(k), c);
    }
}

proof fn lemma_subtree_trans(k: int, c: int, d: int)
    requires
        in_subtree(k, c),
        in_subtree(c, d),
    ensures
        in_subtree(k, d),
    decreases k,
{
    if k != c {
        lemma_subtree_basics(k, c);
        lemma_subtree_trans(parent(k), c, d);
    }
}

proof fn lemma_subtrees_disjoint(k: int, c: int)
    requires
        c >= 0,
    ensures
        !(in_subtree(k, 2 * c + 1) && in_subtree(k, 2 * c + 2)),
    decreases k,
{
    if in_subtree(k, 2 * c + 1) && in_subtree(k, 2 * c + 2) {
        lemma_subtree_basics(k, 2 * c + 1);
        lemma_subtree_basics(k, 2 * c + 2);
        if k == 2 * c + 1 || k == 2 * c + 2 {
        } else {
            lemma_subtrees_disjoint(parent(k), c);
        }
    }
}

proof fn lemma_all_in_root(k: int)
    requires
        k >= 0,
    ensures
        in_subtree(k, 0),
    decreases k,
{
    if k > 0 {
        lemma_all_in_root(parent(k));
    }
}

/// In a heap, the root of a subtree bounds every value in it.
proof fn lemma_heap_root_max(a: Seq<u32>, c: int, limit: int, k: int)
    requires
        heap_in(a, c, limit),
        0 <= c,
        0 <= k < limit <= a.len(),
        in_subtree(k, c),
    ensures
        a[k] <= a[c],
    decreases k,
{
    if k != c {
        lemma_subtree_basics(k, c);
        lemma_heap_root_max(a, c, limit, parent(k));
    }
}

pub proof fn lemma_swap_multiset(s: Seq<u32>, i: int, j: int)
    requires
        0 <= i < s.len(),
        0 <= j < s.len(),
    ensures
        s.update(i, s[j]).update(j, s[i]).to_multiset() == s.to_multiset(),
{
    broadcast use vstd::multiset::group_multiset_properties;

    let s1 = s.update(i, s[j]);
    assert(s1.to_multiset() == s.to_multiset().insert(s[j]).remove(s[i]));
    assert(s1.update(j, s[i]).to_multiset() == s1.to_multiset().insert(s[i]).remove(s1[j]));
    if i == j {
        assert(s.update(i, s[j]).update(j, s[i]) =~= s);
    } else {
        assert(s1[j] == s[j]);
        assert(s.to_multiset().insert(s[j]).remove(s[i]).insert(s[i]).remove(s[j]) =~= s.to_multiset());
    }
}

/// No value below the largest `u32` occurs twice.
pub open spec fn distinct_real(s: Seq<u32>) -> bool {
    forall|v: u32| v != u32::MAX ==> #[trigger] s.to_multiset().count(v) <= 1
}

/// A value at two places is counted twice.
pub proof fn lemma_two_places_count(s: Seq<u32>, i: int, j: int)
    requires
        0 <= i < j < s.len(),
        s[i] == s[j],
    ensures
        s.to_multiset().count(s[i]) >= 2,
{
    broadcast use vstd::multiset::group_multiset_axioms;

    let s0 = s.subrange(0, j);
    let s1 = s.subrange(j, s.len() as int);
    assert(s =~= s0 + s1);
    vstd::seq_lib::lemma_multiset_commutative(s0, s1);
    assert(s0[i] == s[i]);
    assert(s1[0] == s[j]);
    assert(s0.contains(s[i]));
    assert(s1.contains(s[i]));
}

/// The values of `s` below the largest `u32`, in order.
pub open spec fn real_values(s: Seq<u32>) -> Seq<u32>
    decreases s.len(),
{
    if s.len() == 0 {
        Seq::empty()
    } else if s.last() < u32::MAX {
        real_values(s.drop_last()).push(s.last())
    } else {
        real_values(s.drop_last())
    }
}

pub proof fn lemma_real_values_padding(s: Seq<u32>, i: int)
    requires
        0 <= i <= s.len(),
        forall|k: int| i <= k < s.len() ==> s[k] == u32::MAX,
    ensures
        real_values(s) == real_values(s.subrange(0, i)),
    decreases s.len() - i,
{
    if s.len() == i {
        assert(s.subrange(0, i) =~= s);
    } else {
        assert(s.drop_last() =~= s.subrange(0, s.len() - 1));
        lemma_real_values_padding(s.drop_last(), i);
        assert(s.drop_last().subrange(0, i) =~= s.subrange(0, i));
    }
}

/// No value is larger than a later one.
pub open spec fn sorted_seq(s: Seq<u32>) -> bool {
    forall|i: int, j: int| 0 <= i <= j < s.len() ==> s[i] <= s[j]
}

/// The values held below the largest `u32` are values of `xs`, and a value of `xs` that is not
/// held is larger than every held value, with no slot left at the largest `u32`: the heap
/// keeps the smallest values of `xs`.
pub open spec fn keeps_smallest(s: Seq<u32>, xs: Set<u32>) -> bool {
    &&& !xs.contains(u32::MAX)
    &&& forall|v: u32| s.contains(v) && v != u32::MAX ==> #[trigger] xs.contains(v)
    &&& forall|x: u32|
        #[trigger] xs.contains(x) && !s.contains(x) ==> !s.contains(u32::MAX) && forall|k: int|
            0 <= k < s.len() ==> #[trigger] s[k] < x
}

/// `xs` with `e` added, unless `e` is the largest `u32`, which marks an empty slot.
pub open spec fn with_value(xs: Set<u32>, e: u32) -> Set<u32> {
    if e == u32::MAX {
        xs
    } else {
        xs.insert(e)
    }
}

/// `r` lists the smallest values of `xs` strictly ascending: all of them, or `limit` of them.
pub open spec fn smallest_sorted(r: Seq<u32>, xs: Set<u32>, limit: int) -> bool {
    &&& forall|i: int, j: int| 0 <= i < j < r.len() ==> r[i] < r[j]
    &&& r.len() <= limit
    &&& forall|v: u32| r.contains(v) ==> #[trigger] xs.contains(v)
    &&& forall|x: u32|
        #[trigger] xs.contains(x) && !r.contains(x) ==> r.len() == limit && forall|k: int|
            0 <= k < r.len() ==> #[trigger] r[k] < x
}

/// What the values below the largest `u32` are.
pub proof fn lemma_real_values_facts(s: Seq<u32>)
    ensures
        real_values(s).len() <= s.len(),
        forall|v: u32| #[trigger] real_values(s).contains(v) <==> (s.contains(v) && v < u32::MAX),
        !s.contains(u32::MAX) ==> real_values(s) == s,
    decreases s.len(),
{
    if s.len() > 0 {
        let d = s.drop_last();
        lemma_real_values_facts(d);
        assert(s =~= d.push(s.last()));
        assert forall|v: u32| #[trigger] real_values(s).contains(v) <==> (s.contains(v) && v < u32::MAX) by {
            if s.contains(v) {
                let k = choose|k: int| 0 <= k < s.len() && s[k] == v;
                if k < d.len() {
                    assert(d[k] == v);
                }
            }
            if d.contains(v) {
                let k = choose|k: int| 0 <= k < d.len() && d[k] == v;
                assert(s[k] == v);
            }
            if s.last() < u32::MAX {
                let r = real_values(d);
                assert(real_values(s) == r.push(s.last()));
                if r.push(s.last()).contains(v) && v != s.last() {
                    let k = choose|k: int| 0 <= k < r.len() + 1 && r.push(s.last())[k] == v;
                    assert(r[k] == v);
                }
                if r.contains(v) {
                    let k = choose|k: int| 0 <= k < r.len() && r[k] == v;
                    assert(r.push(s.last())[k] == v);
                }
                assert(r.push(s.last())[r.len() as int] == s.last());
            }
        }
        if !s.contains(u32::MAX) {
            assert(s[s.len() - 1] == s.last());
            assert(!d.contains(u32::MAX)) by {
                if d.contains(u32::MAX) {
                    let k = choose|k: int| 0 <= k < d.len() && d[k] == u32::MAX;
                    assert(s[k] == u32::MAX);
                }
            }
        }
    }
}

/// The values below the largest `u32` of a sorted sequence that holds none of them twice are
/// strictly ascending.
pub proof fn lemma_real_values_ascending(s: Seq<u32>)
    requires
        sorted_seq(s),
        distinct_real(s),
    ensures
        forall|i: int, j: int|
            0 <= i < j < real_values(s).len() ==> real_values(s)[i] < real_values(s)[j],
    decreases s.len(),
{
    broadcast use vstd::multiset::group_multiset_axioms;

    if s.len() > 0 {
        let d = s.drop_last();
        assert(s =~= d.push(s.last()));
        assert forall|v: u32| v != u32::MAX implies #[trigger] d.to_multiset().count(v) <= 1 by {
            assert(s.to_multiset() == d.to_multiset().insert(s.last()));
            assert(s.to_multiset().count(v) <= 1);
        }
        lemma_real_values_ascending(d);
        lemma_real_values_facts(d);
        if s.last() < u32::MAX {
            let r = real_values(d);
            assert forall|i: int| 0 <= i < r.len() implies r[i] < s.last() by {
                assert(r.contains(r[i]));
                let k = choose|k: int| 0 <= k < d.len() && d[k] == r[i];
                assert(s[k] == r[i]);
                assert(s[k] <= s[s.len() - 1]);
                if r[i] == s.last() {
                    lemma_two_places_count(s, k, s.len() - 1);
                }
            }
        }
    }
}

/// Pushing a value keeps the smallest values of the values pushed so far.
pub proof fn lemma_push_keeps(a: Seq<u32>, b: Seq<u32>, e: u32, xs: Set<u32>, n: int)
    requires
        a.len() == n,
        n > 0,
        heap_in(a, 0, n),
        distinct_real(a),
        keeps_smallest(a, xs),
        (a[0] > e && !a.contains(e)) ==> b.to_multiset() == a.to_multiset().insert(e).remove(a[0]),
        !(a[0] > e && !a.contains(e)) ==> b == a,
    ensures
        keeps_smallest(b, with_value(xs, e)),
{
    broadcast use vstd::multiset::group_multiset_axioms;

    let xs2 = with_value(xs, e);
    // every held value is at most the root
    assert forall|v: u32| a.contains(v) implies v <= a[0] by {
        let k = choose|k: int| 0 <= k < a.len() && a[k] == v;
        lemma_all_in_root(k);
        lemma_heap_root_max(a, 0, n, k);
    }
    if a[0] > e && !a.contains(e) {
        let ma = a.to_multiset();
        let mb = b.to_multiset();
        assert(mb.count(e) > 0);
        assert(b.contains(e));
        assert(a.contains(a[0]));
        assert forall|v: u32| b.contains(v) && v != u32::MAX implies #[trigger] xs2.contains(v) by {
            if v != e {
                assert(mb.count(v) > 0);
                assert(ma.count(v) > 0);
            }
        }
        assert forall|x: u32| #[trigger] xs2.contains(x) && !b.contains(x) implies !b.contains(u32::MAX)
            && forall|k: int| 0 <= k < b.len() ==> #[trigger] b[k] < x by {
            assert(x != e);
            assert(xs.contains(x));
            assert(mb.count(x) == 0);
            if a.contains(x) {
                assert(ma.count(x) <= 1);
                assert(x == a[0]);
            } else {
                assert(a[0] < x);
            }
            assert forall|k: int| 0 <= k < b.len() implies #[trigger] b[k] < x by {
                assert(b.contains(b[k]));
                assert(mb.count(b[k]) > 0);
                if b[k] != e {
                    assert(ma.count(b[k]) > 0);
                    assert(a.contains(b[k]));
                    if b[k] == x {
                        assert(ma.count(x) <= 1);
                    }
                }
            }
            if b.contains(u32::MAX) {
                let k = choose|k: int| 0 <= k < b.len() && b[k] == u32::MAX;
                assert(b[k] < x);
            }
        }
    } else {
        assert forall|x: u32| #[trigger] xs2.contains(x) && !b.contains(x) implies !b.contains(u32::MAX)
            && forall|k: int| 0 <= k < b.len() ==> #[trigger] b[k] < x by {
            if x == e && !xs.contains(x) {
                assert(a.contains(a[0]));
                assert(a[0] < e);
                if b.contains(u32::MAX) {
                    assert(u32::MAX <= a[0]);
                }
                assert forall|k: int| 0 <= k < b.len() implies #[trigger] b[k] < x by {
                    assert(a.contains(a[k]));
                }
            }
        }
    }
}

/// A max-heap of the smallest distinct values seen, padded with the largest value.
pub struct FixedHeap<const S: usize> {
    pub arr: Vec<u32>,
}

impl<const S: usize> FixedHeap<S> {
    /// The array holds `S` values and no value is larger than its parent.
    pub open spec fn wf(&self) -> bool {
        &&& self.arr@.len() == S
        &&& heap_in(self.arr@, 0, S as int)
        &&& distinct_real(self.arr@)
    }

    /// A heap of `S` copies of the largest value.
    pub fn new() -> (res: Self)
        ensures
            res.wf(),
            res.arr@ == Seq::new(S as nat, |i: int| u32::MAX),
            keeps_smallest(res.arr@, Set::empty()),
    {
        let arr = vec![u32::MAX; S];
        let res = Self { arr };
        assert(res.arr@ =~= Seq::new(S as nat, |i: int| u32::MAX));
        assert forall|v: u32| v != u32::MAX implies #[trigger] res.arr@.to_multiset().count(v) <= 1 by {
            assert(!res.arr@.contains(v));
        }
        assert forall|v: u32| res.arr@.contains(v) implies v == u32::MAX by {
            let k = choose|k: int| 0 <= k < res.arr@.len() && res.arr@[k] == v;
        }
        res
    }

    /// Whether `e` is in the subtree rooted at `i` below `limit`; the search skips subtrees
    /// whose root is already smaller than `e`.
    fn find_in(&self, e: &u32, i: usize, limit: usize) -> (res: bool)
        requires
            i < limit <= self.arr@.len(),
            heap_in(self.arr@, i as int, limit as int),
        ensures
            res == exists|k: int| 0 <= k < limit && #[trigger] in_subtree(k, i as int) && self.arr@[k] == *e,
        decreases limit - i,
    {
        proof {
            lemma_subtree_basics(i as int, i as int);
        }
        if self.arr[i] == *e {
            assert(in_subtree(i as int, i as int));
            return true;
        }
        if self.arr[i] < *e {
            proof {
                assert forall|k: int| 0 <= k < limit && #[trigger] in_subtree(k, i as int) implies self.arr@[k] != *e by {
                    lemma_heap_root_max(self.arr@, i as int, limit as int, k);
                }
            }
            return false;
        }
        let mut child_side: usize = 1;
        while child_side < 3
            invariant
                1 <= child_side <= 3,
                i < limit <= self.arr@.len(),
                heap_in(self.arr@, i as int, limit as int),
                self.arr@[i as int] != *e,
                forall|k: int|
                    0 <= k < limit && #[trigger] in_subtree(k, i as int) && self.arr@[k] == *e ==> (
                    child_side >= 2 ==> !in_subtree(k, 2 * i + 1)) && (child_side >= 3 ==> !in_subtree(
                        k,
                        2 * i + 2,
                    )),
            decreases 3 - child_side,
        {
            if i > (usize::MAX - 3) / 2 {
                proof {
                    assert forall|k: int| 0 <= k < limit && #[trigger] in_subtree(k, i as int) implies self.arr@[k] != *e by {
                        lemma_subtree_basics(k, i as int);
                    }
                }
                return false;
            }
            let child_ind = i * 2 + child_side;
            if child_ind >= limit {
                proof {
                    assert forall|k: int| 0 <= k < limit && #[trigger] in_subtree(k, i as int) implies self.arr@[k] != *e by {
                        lemma_subtree_basics(k, i as int);
                        if k != i {
                            lemma_subtree_of_child(k, i as int);
                            lemma_subtree_basics(k, 2 * i + 1);
                            lemma_subtree_basics(k, 2 * i + 2);
                        }
                    }
                }
                return false;
            }
            proof {
                lemma_subtree_basics(child_ind as int, i as int);
                assert forall|k: int| 0 < k < limit && k != child_ind && #[trigger] in_subtree(k, child_ind as int) implies self.arr@[parent(k)] >= self.arr@[k] by {
                    lemma_subtree_trans(k, child_ind as int, i as int);
                    lemma_subtree_basics(k, child_ind as int);
                }
            }
            if self.find_in(e, child_ind, limit) {
                proof {
                    let k = choose|k: int| 0 <= k < limit && #[trigger] in_subtree(k, child_ind as int) && self.arr@[k] == *e;
                    lemma_subtree_trans(k, child_ind as int, i as int);
                }
                return true;
            }
            proof {
                assert forall|k: int|
                    0 <= k < limit && #[trigger] in_subtree(k, i as int) && self.arr@[k] == *e implies (
                    child_side + 1 >= 2 ==> !in_subtree(k, 2 * i + 1)) && (child_side + 1 >= 3
                        ==> !in_subtree(k, 2 * i + 2)) by {
                    lemma_subtree_basics(k, i as int);
                    lemma_subtree_of_child(k, i as int);
                    lemma_subtrees_disjoint(k, i as int);
                    lemma_subtree_basics(k, 2 * i + 1);
                    lemma_subtree_basics(k, 2 * i + 2);
                }
            }
            child_side += 1;
        }
        proof {
            assert forall|k: int| 0 <= k < limit && #[trigger] in_subtree(k, i as int) implies self.arr@[k] != *e by {
                if self.arr@[k] == *e {
                    lemma_subtree_basics(k, i as int);
                    lemma_subtree_of_child(k, i as int);
                }
            }
        }
        false
    }
}

/// The largest of `a[i]` and its children below `limit`.
pub open spec fn top3(a: Seq<u32>, i: int, limit: int) -> u32 {
    let m1 = if 2 * i + 1 < limit && a[2 * i + 1] > a[i] {
        a[2 * i + 1]
    } else {
        a[i]
    };
    if 2 * i + 2 < limit && a[2 * i + 2] > m1 {
        a[2 * i + 2]
    } else {
        m1
    }
}

/// Positions outside the subtree of `i` below `limit` hold the same values.
pub open spec fn same_outside(a: Seq<u32>, b: Seq<u32>, i: int, limit: int) -> bool {
    &&& a.len() == b.len()
    &&& forall|k: int| 0 <= k < a.len() ==> #[trigger] a[k] == b[k] || (k < limit && in_subtree(k, i))
}

proof fn lemma_heap_from_children(a: Seq<u32>, i: int, limit: int)
    requires
        0 <= i < limit <= a.len(),
        2 * i + 1 < limit ==> heap_in(a, 2 * i + 1, limit) && a[2 * i + 1] <= a[i],
        2 * i + 2 < limit ==> heap_in(a, 2 * i + 2, limit) && a[2 * i + 2] <= a[i],
    ensures
        heap_in(a, i, limit),
{
    assert forall|k: int| 0 < k < limit && k != i && #[trigger] in_subtree(k, i) implies a[parent(k)] >= a[k] by {
        lemma_subtree_basics(k, i);
        lemma_subtree_of_child(k, i);
        lemma_subtree_basics(k, 2 * i + 1);
        lemma_subtree_basics(k, 2 * i + 2);
        if k == 2 * i + 1 || k == 2 * i + 2 {
            assert(parent(k) == i);
        }
    }
}

proof fn lemma_same_outside_at(a: Seq<u32>, b: Seq<u32>, i: int, limit: int, k: int)
    requires
        same_outside(a, b, i, limit),
        0 <= k < a.len(),
        !(k < limit && in_subtree(k, i)),
    ensures
        a[k] == b[k],
{
}

impl<const S: usize> FixedHeap<S> {
    /// Sinks `arr[i]` into the subtree below it until that subtree is a heap again.
    fn reorganize_limited(&mut self, i: usize, limit: usize)
        requires
            i < limit <= old(self).arr@.len(),
            2 * i + 1 < limit ==> heap_in(old(self).arr@, 2 * i + 1, limit as int),
            2 * i + 2 < limit ==> heap_in(old(self).arr@, 2 * i + 2, limit as int),
        ensures
            heap_in(final(self).arr@, i as int, limit as int),
            same_outside(final(self).arr@, old(self).arr@, i as int, limit as int),
            final(self).arr@.to_multiset() == old(self).arr@.to_multiset(),
            final(self).arr@[i as int] == top3(old(self).arr@, i as int, limit as int),
        decreases limit - i,
    {
        let ghost a0 = self.arr@;
        let ghost c1 = 2 * i + 1;
        let ghost c2 = 2 * i + 2;
        proof {
            lemma_subtree_basics(i as int, i as int);
            lemma_subtree_basics(c1, i as int);
            lemma_subtree_basics(c2, i as int);
        }
        if i > (usize::MAX - 3) / 2 {
            proof {
                assert forall|k: int| 0 < k < limit && k != i && #[trigger] in_subtree(k, i as int) implies self.arr@[parent(k)] >= self.arr@[k] by {
                    lemma_subtree_basics(k, i as int);
                }
            }
            return;
        }
        let mut child_side: usize = 1;
        while child_side < 3
            invariant
                1 <= child_side <= 3,
                i < limit <= self.arr@.len(),
                i <= (usize::MAX - 3) / 2,
                a0 == old(self).arr@,
                c1 == 2 * i + 1,
                c2 == 2 * i + 2,
                self.arr@.len() == a0.len(),
                same_outside(self.arr@, a0, i as int, limit as int),
                self.arr@.to_multiset() == a0.to_multiset(),
                c1 < limit ==> heap_in(self.arr@, c1, limit as int),
                c2 < limit ==> heap_in(self.arr@, c2, limit as int),
                child_side == 1 ==> self.arr@ == a0,
                child_side == 2 ==> forall|k: int| 0 <= k < self.arr@.len() && #[trigger] in_subtree(k, c2) ==> self.arr@[k] == a0[k],
                child_side == 2 ==> self.arr@[i as int] == (if c1 < limit && a0[c1] > a0[i as int] {
                    a0[c1]
                } else {
                    a0[i as int]
                }),
                child_side >= 2 && c1 < limit ==> self.arr@[c1] <= self.arr@[i as int],
                child_side >= 3 ==> self.arr@[i as int] == top3(a0, i as int, limit as int),
                child_side >= 3 && c2 < limit ==> self.arr@[c2] <= self.arr@[i as int],
                child_side >= 3 ==> heap_in(self.arr@, i as int, limit as int),
            ensures
                self.arr@.len() == a0.len(),
                same_outside(self.arr@, a0, i as int, limit as int),
                self.arr@.to_multiset() == a0.to_multiset(),
                heap_in(self.arr@, i as int, limit as int),
                self.arr@[i as int] == top3(a0, i as int, limit as int),
            decreases 3 - child_side,
        {
            let child_ind = i * 2 + child_side;
            if child_ind >= limit {
                proof {
                    assert(c2 >= limit);
                    if child_side == 1 {
                        assert(self.arr@ == a0);
                        assert(top3(a0, i as int, limit as int) == a0[i as int]);
                    }
                    if c1 < limit {
                        assert(self.arr@[c1] <= self.arr@[i as int]);
                    }
                    lemma_heap_from_children(self.arr@, i as int, limit as int);
                }
                return;
            }
            let ghost before = self.arr@;
            proof {
                if child_side == 2 && c2 < limit {
                    lemma_subtree_basics(c2, c2);
                    assert(in_subtree(c2, c2));
                    assert(before[c2] == a0[c2]);
                }
            }
            if self.arr[child_ind] > self.arr[i] {
                let x = self.arr[child_ind];
                let y = self.arr[i];
                self.arr.set(child_ind, y);
                self.arr.set(i, x);
                proof {
                    lemma_swap_multiset(before, child_ind as int, i as int);
                    assert(self.arr@ =~= before.update(child_ind as int, before[i as int]).update(i as int, before[child_ind as int]));
                    // the subtrees below the child are untouched by the swap
                    assert forall|gc: int| (gc == 2 * child_ind + 1 || gc == 2 * child_ind + 2) && gc < limit implies heap_in(self.arr@, gc, limit as int) by {
                        assert forall|k: int| 0 < k < limit && k != gc && #[trigger] in_subtree(k, gc) implies self.arr@[parent(k)] >= self.arr@[k] by {
                            lemma_subtree_basics(k, gc);
                            lemma_subtree_basics(parent(k), gc);
                            lemma_subtree_basics(gc, child_ind as int);
                            lemma_subtree_trans(k, gc, child_ind as int);
                            lemma_subtree_trans(parent(k), gc, child_ind as int);
                            assert(before[parent(k)] >= before[k]);
                        }
                    }
                }
                let ghost mid = self.arr@;
                self.reorganize_limited(child_ind, limit);
                proof {
                    let c = child_ind as int;
                    // the swapped-down value and the grandchildren are all at most the new root
                    assert(self.arr@[c] == top3(mid, c, limit as int));
                    if 2 * c + 1 < limit {
                        lemma_subtree_basics(2 * c + 1, c);
                        assert(before[2 * c + 1] <= before[c]);
                    }
                    if 2 * c + 2 < limit {
                        lemma_subtree_basics(2 * c + 2, c);
                        assert(before[2 * c + 2] <= before[c]);
                    }
                    assert(same_outside(self.arr@, mid, c, limit as int));
                    assert(self.arr@.len() == mid.len());
                    lemma_subtree_basics(i as int, c);
                    lemma_subtree_basics(c, i as int);
                    assert(in_subtree(i as int, i as int));
                    assert(!in_subtree(i as int, c));
                    assert(self.arr@[i as int] == mid[i as int]);
                    assert(self.arr@[c] <= self.arr@[i as int]);
                    // positions outside the child's subtree kept their values
                    assert forall|k: int| 0 <= k < self.arr@.len() && !(k < limit && #[trigger] in_subtree(k, i as int)) implies self.arr@[k] == a0[k] by {
                        if k < limit && in_subtree(k, c) {
                            lemma_subtree_trans(k, c, i as int);
                        }
                        assert(!(k < limit && in_subtree(k, c)));
                        lemma_same_outside_at(self.arr@, mid, c, limit as int, k);
                        assert(mid[k] == before[k]);
                    }
                    if child_side == 2 && c1 < limit {
                        lemma_subtree_basics(c1, c);
                        assert(self.arr@[c1] == mid[c1]);
                        assert(mid[c1] == before[c1]);
                    }
                    if child_side == 1 {
                        assert forall|k: int| 0 <= k < self.arr@.len() && #[trigger] in_subtree(k, c2) implies self.arr@[k] == a0[k] by {
                            lemma_subtrees_disjoint(k, i as int);
                            lemma_subtree_basics(k, c2);
                        }
                    }
                    if child_side == 2 && c1 < limit {
                        assert(self.arr@[c1] == mid[c1]) by {
                            lemma_subtree_basics(c1, c);
                            lemma_subtree_basics(c1, c1);
                        }
                        assert forall|k: int| 0 < k < limit && k != c1 && #[trigger] in_subtree(k, c1) implies self.arr@[parent(k)] >= self.arr@[k] by {
                            lemma_subtrees_disjoint(k, i as int);
                            lemma_subtree_basics(k, c1);
                            lemma_subtrees_disjoint(parent(k), i as int);
                            assert(in_subtree(parent(k), c1));
                            assert(before[parent(k)] >= before[k]);
                        }
                    }
                    if child_side == 1 && c2 < limit {
                        assert forall|k: int| 0 < k < limit && k != c2 && #[trigger] in_subtree(k, c2) implies self.arr@[parent(k)] >= self.arr@[k] by {
                            lemma_subtrees_disjoint(k, i as int);
                            lemma_subtree_basics(k, c2);
                            lemma_subtrees_disjoint(parent(k), i as int);
                            assert(in_subtree(parent(k), c2));
                            assert(before[parent(k)] >= before[k]);
                        }
                    }
                }
            } else {
                proof {
                    let c = child_ind as int;
                    if child_side == 1 {
                        assert forall|k: int| 0 <= k < self.arr@.len() && #[trigger] in_subtree(k, c2) implies self.arr@[k] == a0[k] by {
                        }
                    }
                }
            }
            child_side += 1;
            proof {
                if child_side == 3 {
                    if c1 < limit {
                        assert(self.arr@[c1] <= self.arr@[i as int]);
                    }
                    lemma_heap_from_children(self.arr@, i as int, limit as int);
                }
            }
        }
    }
}

/// The heap property below the root survives a change of the root and a shorter limit.
proof fn lemma_children_heaps_after_root_change(a: Seq<u32>, b: Seq<u32>, limit: int, new_limit: int)
    requires
        heap_in(a, 0, limit),
        0 < new_limit <= limit <= a.len(),
        a.len() == b.len(),
        forall|k: int| 0 < k < new_limit ==> a[k] == b[k],
    ensures
        1 < new_limit ==> heap_in(b, 1, new_limit),
        2 < new_limit ==> heap_in(b, 2, new_limit),
{
    assert forall|c: int, k: int| (c == 1 || c == 2) && 0 < k < new_limit && k != c && #[trigger] in_subtree(k, c) implies b[parent(k)] >= b[k] by {
        lemma_subtree_basics(c, 0);
        lemma_subtree_trans(k, c, 0);
        lemma_subtree_basics(k, c);
        assert(parent(k) >= c);
        assert(a[parent(k)] >= a[k]);
    }
}

impl<const S: usize> FixedHeap<S> {
    /// Takes `e` in place of the largest value when `e` is smaller than it and not held yet;
    /// the heap then keeps the smallest of the values pushed so far.
    pub fn push_unique(&mut self, e: u32)
        requires
            old(self).wf(),
            S > 0,
        ensures
            final(self).wf(),
            pushed(old(self).arr@, final(self).arr@, e),
            forall|xs: Set<u32>|
                #[trigger] keeps_smallest(old(self).arr@, xs) ==> keeps_smallest(
                    final(self).arr@,
                    with_value(xs, e),
                ),
    {
        let ghost a = self.arr@;
        self.push_step(e);
        proof {
            assert forall|xs: Set<u32>| #[trigger] keeps_smallest(a, xs) implies keeps_smallest(
                self.arr@,
                with_value(xs, e),
            ) by {
                lemma_push_keeps(a, self.arr@, e, xs, S as int);
            }
        }
    }

    fn push_step(&mut self, e: u32)
        requires
            old(self).wf(),
            S > 0,
        ensures
            final(self).wf(),
            (old(self).arr@[0] > e && !old(self).arr@.contains(e)) ==> final(self).arr@.to_multiset()
                == old(self).arr@.to_multiset().insert(e).remove(old(self).arr@[0]),
            !(old(self).arr@[0] > e && !old(self).arr@.contains(e)) ==> final(self).arr@ == old(
                self,
            ).arr@,
    {
        if self.arr[0] > e {
            if self.find_in(&e, 0, S) {
                proof {
                    let k = choose|k: int| 0 <= k < S && #[trigger] in_subtree(k, 0) && self.arr@[k] == e;
                    assert(self.arr@[k] == e);
                }
                return;
            }
            proof {
                assert forall|k: int| 0 <= k < S implies self.arr@[k] != e by {
                    lemma_all_in_root(k);
                }
            }
            let ghost before = self.arr@;
            self.arr.set(0, e);
            proof {
                lemma_children_heaps_after_root_change(before, self.arr@, S as int, S as int);
            }
            self.reorganize_limited(0, S);
            proof {
                broadcast use vstd::multiset::group_multiset_axioms;

                let m0 = before.to_multiset();
                assert forall|v: u32| v != u32::MAX implies #[trigger] self.arr@.to_multiset().count(v) <= 1 by {
                    assert(m0.count(v) <= 1);
                    if v == e {
                        assert(m0.count(e) == 0);
                    }
                }
            }
        }
    }

    /// Sorts the held values in ascending order.
    pub fn sort(&mut self)
        requires
            old(self).wf(),
        ensures
            final(self).arr@.len() == S,
            sorted_seq(final(self).arr@),
            final(self).arr@.to_multiset() == old(self).arr@.to_multiset(),
    {
        let mut e: usize = S;
        while e > 1
            invariant
                e <= S,
                self.arr@.len() == S,
                heap_in(self.arr@, 0, e as int),
                sorted_seq(self.arr@.subrange(e as int, S as int)),
                forall|k: int, j: int| 0 <= k < e <= j < S ==> self.arr@[k] <= self.arr@[j],
                self.arr@.to_multiset() == old(self).arr@.to_multiset(),
            decreases e,
        {
            e = e - 1;
            let ghost before = self.arr@;
            let top = self.arr[0];
            let last = self.arr[e];
            self.arr.set(0, last);
            self.arr.set(e, top);
            proof {
                lemma_swap_multiset(before, 0, e as int);
                assert(self.arr@ =~= before.update(0, before[e as int]).update(e as int, before[0]));
                lemma_children_heaps_after_root_change(before, self.arr@, e + 1, e as int);
                assert forall|k: int| 0 <= k < e + 1 implies #[trigger] before[k] <= before[0] by {
                    lemma_all_in_root(k);
                    lemma_heap_root_max(before, 0, e + 1, k);
                }
            }
            let ghost mid = self.arr@;
            self.reorganize_limited(0, e);
            proof {
                let a = self.arr@;
                assert forall|k: int| e <= k < S implies a[k] == mid[k] by {
                    lemma_same_outside_at(a, mid, 0, e as int, k);
                }
                assert(top3(mid, 0, e as int) <= top);
                assert forall|k: int, j: int| 0 <= k < e <= j < S implies a[k] <= a[j] by {
                    lemma_all_in_root(k);
                    lemma_heap_root_max(a, 0, e as int, k);
                    assert(a[e as int] == top);
                    if j > e {
                        assert(before[0] <= before[j]);
                    }
                }
                assert forall|x: int, y: int| e <= x <= y < S implies a[x] <= a[y] by {
                    if x > e {
                        assert(before.subrange(e + 1, S as int)[x - e - 1] <= before.subrange(e + 1, S as int)[y - e - 1]);
                    } else if y > e {
                        assert(before[0] <= before[y]);
                    }
                }
                assert(sorted_seq(a.subrange(e as int, S as int)));
            }
        }
        proof {
            let a = self.arr@;
            assert forall|x: int, y: int| 0 <= x <= y < S implies a[x] <= a[y] by {
                if x >= e {
                    assert(a.subrange(e as int, S as int)[x - e] <= a.subrange(e as int, S as int)[y - e]);
                } else if y >= e {
                } else {
                    assert(x == y);
                }
            }
        }
    }

    /// The held values below the largest one, in ascending order: after a run of pushes,
    /// the smallest distinct values pushed, `S` of them or all.
    pub fn into_iter(self) -> (res: Vec<u32>)
        requires
            self.wf(),
        ensures
            exists|s: Seq<u32>|
                #![trigger sorted_seq(s)]
                s.len() == S && sorted_seq(s) && s.to_multiset() == self.arr@.to_multiset()
                    && res@ == real_values(s),
            forall|xs: Set<u32>| #[trigger]
                keeps_smallest(self.arr@, xs) ==> smallest_sorted(res@, xs, S as int),
    {
        let ghost a = self.arr@;
        let res = self.sorted_values();
        proof {
            let s = choose|s: Seq<u32>|
                #![trigger sorted_seq(s)]
                s.len() == S && sorted_seq(s) && s.to_multiset() == a.to_multiset()
                    && res@ == real_values(s);
            lemma_sorted_values_smallest(a, s, S as int);
        }
        res
    }

    fn sorted_values(self) -> (res: Vec<u32>)
        requires
            self.wf(),
        ensures
            exists|s: Seq<u32>|
                #![trigger sorted_seq(s)]
                s.len() == S && sorted_seq(s) && s.to_multiset() == self.arr@.to_multiset()
                    && res@ == real_values(s),
    {
        let mut me = self;
        me.sort();
        let ghost s = me.arr@;
        let mut out: Vec<u32> = Vec::new();
        let mut i: usize = 0;
        assert(s.subrange(0, S as int) =~= s);
        assert(real_values(s.subrange(0, 0)) =~= Seq::empty());
        while i < S
            invariant_except_break
                out@ == real_values(s.subrange(0, i as int)),
            invariant
                i <= S,
                me.arr@ == s,
                s.len() == S,
                s.subrange(0, S as int) == s,
                sorted_seq(s),
                forall|k: int| 0 <= k < i ==> s[k] < u32::MAX,
            ensures
                out@ == real_values(s),
            decreases S - i,
        {
            if me.arr[i] < u32::MAX {
                out.push(me.arr[i]);
                proof {
                    assert(s.subrange(0, i + 1).drop_last() =~= s.subrange(0, i as int));
                }
                i += 1;
            } else {
                proof {
                    assert forall|k: int| i <= k < s.len() implies s[k] == u32::MAX by {
                        assert(s[i as int] <= s[k]);
                    }
                    lemma_real_values_padding(s, i as int);
                }
                break;
            }
        }
        proof {
            if i == S {
                assert(s.subrange(0, S as int) =~= s);
            }
        }
        out
    }
}

/// The values below the largest `u32` of the sorted heap are the smallest values it keeps.
pub proof fn lemma_sorted_values_smallest(a: Seq<u32>, s: Seq<u32>, n: int)
    requires
        a.len() == n,
        s.len() == n,
        sorted_seq(s),
        distinct_real(a),
        s.to_multiset() == a.to_multiset(),
    ensures
        forall|xs: Set<u32>| #[trigger]
            keeps_smallest(a, xs) ==> smallest_sorted(real_values(s), xs, n),
{
    assert forall|v: u32| v != u32::MAX implies #[trigger] s.to_multiset().count(v) <= 1 by {
        assert(a.to_multiset().count(v) <= 1);
    }
    lemma_real_values_facts(s);
    lemma_real_values_ascending(s);
    let r = real_values(s);
    assert forall|v: u32| #[trigger] s.contains(v) <==> a.contains(v) by {
        assert(s.to_multiset().count(v) == a.to_multiset().count(v));
        assert(s.contains(v) <==> s.to_multiset().count(v) > 0);
        assert(a.contains(v) <==> a.to_multiset().count(v) > 0);
    }
    assert forall|xs: Set<u32>| #[trigger] keeps_smallest(a, xs) implies smallest_sorted(r, xs, n) by {
        assert forall|v: u32| r.contains(v) implies #[trigger] xs.contains(v) by {
            assert(s.contains(v));
            assert(a.contains(v));
        }
        assert forall|x: u32| #[trigger] xs.contains(x) && !r.contains(x) implies r.len() == n
            && forall|k: int| 0 <= k < r.len() ==> #[trigger] r[k] < x by {
            assert(!a.contains(x));
            assert(!a.contains(u32::MAX));
            assert(!s.contains(u32::MAX));
            assert(r == s);
            assert forall|k: int| 0 <= k < r.len() implies #[trigger] r[k] < x by {
                assert(s.contains(s[k]));
                assert(a.contains(s[k]));
                let j = choose|j: int| 0 <= j < a.len() && a[j] == s[k];
                assert(a[j] < x);
            }
        }
    }
}

/// The values of `es` below the largest `u32`.
pub open spec fn real_set(es: Seq<u32>) -> Set<u32> {
    Set::new(|x: u32| es.contains(x) && x != u32::MAX)
}

/// What one `push_unique` of `e` makes of the array `a`.
pub open spec fn pushed(a: Seq<u32>, b: Seq<u32>, e: u32) -> bool {
    &&& (a[0] > e && !a.contains(e)) ==> b.to_multiset() == a.to_multiset().insert(e).remove(a[0])
    &&& !(a[0] > e && !a.contains(e)) ==> b == a
}

/// After the values `es` were pushed one by one into a fresh heap of `n` slots, the heap
/// keeps the smallest distinct values pushed; `hs` are the heap's arrays along the way.
pub proof fn law_pushes_keep_smallest(hs: Seq<Seq<u32>>, es: Seq<u32>, n: int)
    requires
        n > 0,
        hs.len() == es.len() + 1,
        hs[0] == Seq::new(n as nat, |i: int| u32::MAX),
        forall|i: int|
            0 <= i < es.len() ==> (#[trigger] hs[i]).len() == n && heap_in(hs[i], 0, n) && distinct_real(hs[i])
                && pushed(hs[i], hs[i + 1], es[i]),
    ensures
        keeps_smallest(hs.last(), real_set(es)),
    decreases es.len(),
{
    if es.len() == 0 {
        assert forall|v: u32| hs[0].contains(v) implies v == u32::MAX by {
            let k = choose|k: int| 0 <= k < hs[0].len() && hs[0][k] == v;
        }
        assert(real_set(es) =~= Set::<u32>::empty());
    } else {
        let m = es.len() - 1;
        let hs0 = hs.drop_last();
        let es0 = es.drop_last();
        assert forall|i: int| 0 <= i < es0.len() implies (#[trigger] hs0[i]).len() == n && heap_in(hs0[i], 0, n)
            && distinct_real(hs0[i]) && pushed(hs0[i], hs0[i + 1], es0[i]) by {
            assert(hs[i] == hs0[i]);
            assert(hs[i + 1] == hs0[i + 1]);
        }
        law_pushes_keep_smallest(hs0, es0, n);
        assert(hs[m] == hs0.last());
        assert(hs[m].len() == n && heap_in(hs[m], 0, n) && distinct_real(hs[m]) && pushed(hs[m], hs[m + 1], es[m]));
        lemma_push_keeps(hs[m], hs[m + 1], es[m], real_set(es0), n);
        assert(with_value(real_set(es0), es[m]) =~= real_set(es)) by {
            assert forall|x: u32| real_set(es).contains(x) <==> with_value(real_set(es0), es[m]).contains(x) by {
                if es.contains(x) && x != es[m] {
                    let k = choose|k: int| 0 <= k < es.len() && es[k] == x;
                    assert(es0[k] == x);
                }
                if es0.contains(x) {
                    let k = choose|k: int| 0 <= k < es0.len() && es0[k] == x;
                    assert(es[k] == x);
                }
                assert(es[m] == es.last());
            }
        }
        assert(hs.last() == hs[m + 1]);
    }
}

} // verus!