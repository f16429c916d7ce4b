use vstd::prelude::*;

verus! {

/// `a` comes before `b` in lexicographic order: at the first difference `a` is smaller, or
/// `a` is a proper prefix of `b`.
pub open spec fn lex_lt(a: Seq<u8>, b: Seq<u8>) -> bool
    decreases a.len(),
{
    if b.len() == 0 {
        false
    } else if a.len() == 0 {
        true
    } else if a[0] < b[0] {
        true
    } else if a[0] > b[0] {
        false
    } else {
        lex_lt(a.drop_first(), b.drop_first())
    }
}

/// Lexicographic order is irreflexive and transitive, and it orders any two different words.
pub proof fn lemma_lex_order(a: Seq<u8>, b: Seq<u8>, c: Seq<u8>)
    ensures
        !lex_lt(a, a),
        lex_lt(a, b) ==> !lex_lt(b, a),
        lex_lt(a, b) && lex_lt(b, c) ==> lex_lt(a, c),
        a != b ==> lex_lt(a, b) || lex_lt(b, a),
    decreases a.len(),
{
    if a.len() > 0 {
        if b.len() > 0 && c.len() > 0 {
            lemma_lex_order(a.drop_first(), b.drop_first(), c.drop_first());
        } else if b.len() > 0 {
            lemma_lex_order(a.drop_first(), b.drop_first(), b.drop_first());
        } else if c.len() > 0 {
            lemma_lex_order(a.drop_first(), c.drop_first(), c.drop_first());
        } else {
            lemma_lex_order(a.drop_first(), a.drop_first(), a.drop_first());
        }
        if a != b && b.len() > 0 && a[0] == b[0] {
            assert(a =~= seq![a[0]] + a.drop_first());
            assert(b =~= seq![b[0]] + b.drop_first());
        }
    } else {
        if b.len() > 0 {
            assert(lex_lt(a, b));
        } else {
            assert(a =~= b);
        }
    }
}

/// Whether `a` comes before `b` in lexicographic order.
pub fn lex_less(a: &[u8], b: &[u8]) -> (res: bool)
    ensures
        res == lex_lt(a@, b@),
{
    let mut i: usize = 0;
    let la = a.len();
    let lb = b.len();
    proof {
        assert(a@.subrange(0, la as int) =~= a@);
        assert(b@.subrange(0, lb as int) =~= b@);
    }
    while i < la && i < lb
        invariant
            la == a@.len(),
            lb == b@.len(),
            i <= la,
            i <= lb,
            lex_lt(a@, b@) == lex_lt(a@.subrange(i as int, la as int), b@.subrange(i as int, lb as int)),
        decreases la - i,
    {
        let ghost sa = a@.subrange(i as int, la as int);
        let ghost sb = b@.subrange(i as int, lb as int);
        if a[i] < b[i] {
            proof {
                assert(sa[0] == a@[i as int]);
                assert(sb[0] == b@[i as int]);
            }
            return true;
        }
        if a[i] > b[i] {
            proof {
                assert(sa[0] == a@[i as int]);
                assert(sb[0] == b@[i as int]);
            }
            return false;
        }
        proof {
            assert(sa.drop_first() =~= a@.subrange(i + 1, la as int));
            assert(sb.drop_first() =~= b@.subrange(i + 1, lb as int));
        }
        i += 1;
    }
    i < lb
}

/// Index `i` comes before index `j` when its key is lexicographically smaller, or the keys
/// are equal and `i` is smaller: the order of a stable sort.
pub open spec fn key_before(keys: Seq<Seq<u8>>, i: int, j: int) -> bool {
    lex_lt(keys[i], keys[j]) || (keys[i] == keys[j] && i < j)
}

/// `order` lists indices strictly rising in key order.
pub open spec fn in_key_order(keys: Seq<Seq<u8>>, order: Seq<usize>) -> bool {
    forall|a: int, b: int| 0 <= a < b < order.len() ==> key_before(keys, order[a] as int, order[b] as int)
}

/// `order` lists each index below `n` once.
pub open spec fn is_permutation(order: Seq<usize>, n: nat) -> bool {
    &&& order.len() == n
    &&& order.no_duplicates()
    &&& forall|a: int| 0 <= a < order.len() ==> #[trigger] order[a] < n
    &&& forall|k: int| 0 <= k < n ==> #[trigger] lists(order, k)
}

/// `order` holds `k`.
pub open spec fn lists(order: Seq<usize>, k: int) -> bool {
    exists|a: int| 0 <= a < order.len() && order[a] == k
}

/// `order` holds the index `v`.
pub open spec fn holds_index(order: Seq<usize>, v: usize) -> bool {
    exists|a: int| 0 <= a < order.len() && order[a] == v
}

/// `key_before` is a strict total order on indices.
pub proof fn lemma_key_before_order(keys: Seq<Seq<u8>>, i: int, j: int, k: int)
    requires
        0 <= i < keys.len(),
        0 <= j < keys.len(),
        0 <= k < keys.len(),
    ensures
        !key_before(keys, i, i),
        key_before(keys, i, j) ==> !key_before(keys, j, i),
        key_before(keys, i, j) && key_before(keys, j, k) ==> key_before(keys, i, k),
        i != j ==> key_before(keys, i, j) || key_before(keys, j, i),
{
    lemma_lex_order(keys[i], keys[j], keys[k]);
    lemma_lex_order(keys[j], keys[i], keys[k]);
    lemma_lex_order(keys[i], keys[k], keys[j]);
    lemma_lex_order(keys[j], keys[k], keys[i]);
    lemma_lex_order(keys[k], keys[i], keys[j]);
    lemma_lex_order(keys[k], keys[j], keys[i]);
}

/// Whether index `i` comes before index `j` in key order.
fn before(keys: &Vec<Vec<u8>>, i: usize, j: usize) -> (res: bool)
    requires
        i < keys@.len(),
        j < keys@.len(),
    ensures
        res == key_before(keys@.map_values(|k: Vec<u8>| k@), i as int, j as int),
{
    let ghost ks = keys@.map_values(|k: Vec<u8>| k@);
    let a = keys[i].as_slice();
    let b = keys[j].as_slice();
    proof {
        lemma_lex_order(ks[i as int], ks[j as int], ks[j as int]);
    }
    if lex_less(a, b) {
        true
    } else if lex_less(b, a) {
        false
    } else {
        i < j
    }
}

/// The indices of `lo..hi`, each once, in key order.
pub open spec fn sorted_range(keys: Seq<Seq<u8>>, order: Seq<usize>, lo: int, hi: int) -> bool {
    &&& order.len() == hi - lo
    &&& order.no_duplicates()
    &&& forall|a: int| 0 <= a < order.len() ==> lo <= #[trigger] order[a] < hi
    &&& forall|k: int| lo <= k < hi ==> #[trigger] lists(order, k)
    &&& in_key_order(keys, order)
}

/// Merges two runs of disjoint indices, each in key order.
fn merge_runs(keys: &Vec<Vec<u8>>, l: Vec<usize>, r: Vec<usize>, lo: usize, mid: usize, hi: usize) -> (res: Vec<usize>)
    requires
        lo <= mid <= hi <= keys@.len(),
        sorted_range(keys@.map_values(|k: Vec<u8>| k@), l@, lo as int, mid as int),
        sorted_range(keys@.map_values(|k: Vec<u8>| k@), r@, mid as int, hi as int),
    ensures
        sorted_range(keys@.map_values(|k: Vec<u8>| k@), res@, lo as int, hi as int),
{
    let ghost ks = keys@.map_values(|k: Vec<u8>| k@);
    let mut out: Vec<usize> = Vec::new();
    let mut i: usize = 0;
    let mut j: usize = 0;
    while i < l.len() || j < r.len()
        invariant
            ks == keys@.map_values(|k: Vec<u8>| k@),
            lo <= mid <= hi <= keys@.len(),
            sorted_range(ks, l@, lo as int, mid as int),
            sorted_range(ks, r@, mid as int, hi as int),
            i <= l@.len(),
            j <= r@.len(),
            out@.len() == i + j,
            out@.no_duplicates(),
            in_key_order(ks, out@),
            forall|a: int| 0 <= a < out@.len() ==> (exists|x: int| 0 <= x < i && l@[x] == #[trigger] out@[a]) || (exists|y: int| 0 <= y < j && r@[y] == out@[a]),
            forall|x: int| 0 <= x < i ==> #[trigger] holds_index(out@, l@[x]),
            forall|y: int| 0 <= y < j ==> #[trigger] holds_index(out@, r@[y]),
            forall|a: int, x: int| 0 <= a < out@.len() && i <= x < l@.len() ==> key_before(ks, #[trigger] out@[a] as int, #[trigger] l@[x] as int),
            forall|a: int, y: int| 0 <= a < out@.len() && j <= y < r@.len() ==> key_before(ks, #[trigger] out@[a] as int, #[trigger] r@[y] as int),
        decreases l@.len() + r@.len() - i - j,
    {
        let take_left = if i == l.len() {
            false
        } else if j == r.len() {
            true
        } else {
            !before(keys, r[j], l[i])
        };
        let x = if take_left { l[i] } else { r[j] };
        proof {
            if take_left {
                assert(lo <= l@[i as int] < mid);
                if j < r@.len() {
                    assert(mid <= r@[j as int] < hi);
                    lemma_key_before_order(ks, l@[i as int] as int, r@[j as int] as int, r@[j as int] as int);
                }
            } else {
                assert(mid <= r@[j as int] < hi);
                if i < l@.len() {
                    assert(lo <= l@[i as int] < mid);
                }
            }
            // the new element comes before everything left in both runs
            assert forall|x2: int| (if take_left { i + 1 } else { i as int }) <= x2 < l@.len() implies key_before(ks, x as int, #[trigger] l@[x2] as int) by {
                assert(lo <= l@[x2] < mid);
                if take_left {
                    assert(key_before(ks, l@[i as int] as int, l@[x2] as int));
                } else if x2 == i {
                } else {
                    assert(key_before(ks, l@[i as int] as int, l@[x2] as int));
                    lemma_key_before_order(ks, r@[j as int] as int, l@[i as int] as int, l@[x2] as int);
                    lemma_key_before_order(ks, l@[i as int] as int, r@[j as int] as int, r@[j as int] as int);
                }
            }
            assert forall|y2: int| (if take_left { j as int } else { j + 1 }) <= y2 < r@.len() implies key_before(ks, x as int, #[trigger] r@[y2] as int) by {
                assert(mid <= r@[y2] < hi);
                if !take_left {
                    assert(key_before(ks, r@[j as int] as int, r@[y2] as int));
                } else if y2 == j {
                    lemma_key_before_order(ks, l@[i as int] as int, r@[j as int] as int, r@[j as int] as int);
                } else {
                    lemma_key_before_order(ks, l@[i as int] as int, r@[j as int] as int, r@[y2] as int);
                    assert(key_before(ks, r@[j as int] as int, r@[y2] as int));
                }
            }
        }
        let ghost before_out = out@;
        out.push(x);
        proof {
            let o = out@;
            assert forall|a: int| 0 <= a < o.len() - 1 implies key_before(ks, #[trigger] o[a] as int, x as int) by {
                assert(o[a] == before_out[a]);
                if take_left {
                    assert(key_before(ks, before_out[a] as int, l@[i as int] as int));
                } else {
                    assert(key_before(ks, before_out[a] as int, r@[j as int] as int));
                }
            }
            assert forall|a: int, b: int| 0 <= a < b < o.len() implies key_before(ks, o[a] as int, o[b] as int) by {
                if b < o.len() - 1 {
                    assert(o[a] == before_out[a] && o[b] == before_out[b]);
                }
            }
            assert forall|a: int, b: int| 0 <= a < o.len() && 0 <= b < o.len() && a != b implies o[a] != o[b] by {
                if a < o.len() - 1 && b < o.len() - 1 {
                    assert(o[a] == before_out[a] && o[b] == before_out[b]);
                } else {
                    let c = if a < b { a } else { b };
                    assert(key_before(ks, o[c] as int, x as int));
                    lemma_key_before_order(ks, x as int, x as int, x as int);
                }
            }
        }
        if take_left {
            i += 1;
        } else {
            j += 1;
        }
        proof {
            let o = out@;
            assert forall|x1: int| 0 <= x1 < i implies #[trigger] holds_index(o, l@[x1]) by {
                if take_left && x1 == i - 1 {
                    assert(o[o.len() - 1] == l@[x1]);
                } else {
                    assert(holds_index(before_out, l@[x1]));
                    let a = choose|a: int| 0 <= a < before_out.len() && before_out[a] == l@[x1];
                    assert(o[a] == l@[x1]);
                }
            }
            assert forall|y1: int| 0 <= y1 < j implies #[trigger] holds_index(o, r@[y1]) by {
                if !take_left && y1 == j - 1 {
                    assert(o[o.len() - 1] == r@[y1]);
                } else {
                    assert(holds_index(before_out, r@[y1]));
                    let a = choose|a: int| 0 <= a < before_out.len() && before_out[a] == r@[y1];
                    assert(o[a] == r@[y1]);
                }
            }
            assert forall|a: int| 0 <= a < o.len() implies (exists|x1: int| 0 <= x1 < i && l@[x1] == #[trigger] o[a]) || (exists|y1: int| 0 <= y1 < j && r@[y1] == o[a]) by {
                if a < o.len() - 1 {
                    assert(o[a] == before_out[a]);
                } else if take_left {
                    assert(l@[i - 1] == o[a]);
                } else {
                    assert(r@[j - 1] == o[a]);
                }
            }
        }
    }
    proof {
        let o = out@;
        assert forall|k: int| lo <= k < hi implies #[trigger] lists(o, k) by {
            if k < mid {
                assert(lists(l@, k));
                let x1 = choose|x1: int| 0 <= x1 < l@.len() && l@[x1] == k;
                assert(holds_index(o, l@[x1]));
                let a = choose|a: int| 0 <= a < o.len() && o[a] == l@[x1];
                assert(o[a] == k);
            } else {
                assert(lists(r@, k));
                let y1 = choose|y1: int| 0 <= y1 < r@.len() && r@[y1] == k;
                assert(holds_index(o, r@[y1]));
                let a = choose|a: int| 0 <= a < o.len() && o[a] == r@[y1];
                assert(o[a] == k);
            }
        }
        assert forall|a: int| 0 <= a < o.len() implies lo <= #[trigger] o[a] < hi by {
            if exists|x1: int| 0 <= x1 < i && l@[x1] == o[a] {
                let x1 = choose|x1: int| 0 <= x1 < i && l@[x1] == o[a];
                assert(lo <= l@[x1] < mid);
            } else {
                let y1 = choose|y1: int| 0 <= y1 < j && r@[y1] == o[a];
                assert(mid <= r@[y1] < hi);
            }
        }
    }
    out
}

/// The indices of `lo..hi` sorted by key, ties in index order.
fn sort_range(keys: &Vec<Vec<u8>>, lo: usize, hi: usize) -> (res: Vec<usize>)
    requires
        lo <= hi <= keys@.len(),
    ensures
        sorted_range(keys@.map_values(|k: Vec<u8>| k@), res@, lo as int, hi as int),
    decreases hi - lo,
{
    if hi - lo <= 1 {
        let mut out: Vec<usize> = Vec::new();
        if hi > lo {
            out.push(lo);
        }
        proof {
            assert forall|k: int| lo <= k < hi implies #[trigger] lists(out@, k) by {
                assert(out@[0] == k);
            }
        }
        return out;
    }
    let mid = lo + (hi - lo) / 2;
    let l = sort_range(keys, lo, mid);
    let r = sort_range(keys, mid, hi);
    merge_runs(keys, l, r, lo, mid, hi)
}

/// The order of a stable sort of the indices by their keys.
pub fn stable_order(keys: &Vec<Vec<u8>>) -> (res: Vec<usize>)
    ensures
        is_permutation(res@, keys@.len()),
        in_key_order(keys@.map_values(|k: Vec<u8>| k@), res@),
{
    sort_range(keys, 0, keys.len())
}

/// The `n` bytes of `a`, the most significant first.
pub open spec fn be_bytes(a: nat, n: nat) -> Seq<u8>
    decreases n,
{
    if n == 0 {
        Seq::empty()
    } else {
        be_bytes(a / 256, (n - 1) as nat).push((a % 256) as u8)
    }
}

/// Appending one byte to each of two words of one length: the words decide, then the bytes.
proof fn lemma_lex_push(p: Seq<u8>, q: Seq<u8>, x: u8, y: u8)
    requires
        p.len() == q.len(),
    ensures
        lex_lt(p.push(x), q.push(y)) == (lex_lt(p, q) || (p == q && x < y)),
    decreases p.len(),
{
    assert(p.push(x)[0] == if p.len() == 0 { x } else { p[0] });
    assert(q.push(y)[0] == if q.len() == 0 { y } else { q[0] });
    if p.len() == 0 {
        assert(p.push(x).drop_first() =~= Seq::<u8>::empty());
        assert(q.push(y).drop_first() =~= Seq::<u8>::empty());
        assert(p =~= q);
        assert(!lex_lt(Seq::<u8>::empty(), Seq::<u8>::empty()));
    } else {
        lemma_lex_push(p.drop_first(), q.drop_first(), x, y);
        assert(p.push(x).drop_first() =~= p.drop_first().push(x));
        assert(q.push(y).drop_first() =~= q.drop_first().push(y));
        if p[0] == q[0] {
            if p.drop_first() == q.drop_first() {
                assert(p =~= q) by {
                    assert(p =~= seq![p[0]] + p.drop_first());
                    assert(q =~= seq![q[0]] + q.drop_first());
                }
            }
            if p == q {
                assert(p.drop_first() =~= q.drop_first());
            }
        }
    }
}

/// Big-endian bytes of one length order as their numbers do.
pub proof fn lemma_be_order(a: nat, b: nat, n: nat)
    ensures
        be_bytes(a, n).len() == n,
        (a < crate::common::pow256(n) && b < crate::common::pow256(n)) ==> (lex_lt(be_bytes(a, n), be_bytes(b, n)) == (a < b)),
        (a < crate::common::pow256(n) && b < crate::common::pow256(n)) ==> ((be_bytes(a, n) == be_bytes(b, n)) == (a == b)),
    decreases n,
{
    if n > 0 {
        let m = (n - 1) as nat;
        lemma_be_order(a / 256, b / 256, m);
        lemma_be_order(b / 256, a / 256, m);
        lemma_lex_push(be_bytes(a / 256, m), be_bytes(b / 256, m), (a % 256) as u8, (b % 256) as u8);
        if a < crate::common::pow256(n) && b < crate::common::pow256(n) {
            assert(a / 256 < crate::common::pow256(m)) by (nonlinear_arith)
                requires
                    a < 256 * crate::common::pow256(m),
            ;
            assert(b / 256 < crate::common::pow256(m)) by (nonlinear_arith)
                requires
                    b < 256 * crate::common::pow256(m),
            ;
            if be_bytes(a, n) == be_bytes(b, n) {
                assert(be_bytes(a, n).drop_last() =~= be_bytes(a / 256, m));
                assert(be_bytes(b, n).drop_last() =~= be_bytes(b / 256, m));
                assert(be_bytes(a, n).last() == be_bytes(b, n).last());
            }
        }
    }
}

/// The `n` bytes of `a`, the most significant first.
pub fn be_bytes_exec(a: u64, n: usize) -> (res: Vec<u8>)
    ensures
        res@ == be_bytes(a as nat, n as nat),
    decreases n,
{
    if n == 0 {
        Vec::new()
    } else {
        let mut v = be_bytes_exec(a / 256, n - 1);
        v.push((a % 256) as u8);
        v
    }
}

} // verus!
