use vstd::prelude::*;
use crate::sorting::{holds_index, is_permutation, key_before, lemma_lex_order, lex_less, lex_lt, lists, stable_order};

verus! {

/// The records of `size` bytes that `a` holds, in order.
pub open spec fn chunks(a: Seq<u8>, size: nat) -> Seq<Seq<u8>>
    decreases a.len(),
{
    if size == 0 || a.len() < size {
        Seq::empty()
    } else {
        chunks(a.subrange(0, a.len() - size), size).push(a.subrange(a.len() - size, a.len() as int))
    }
}

/// The records one after another.
pub open spec fn flatten(recs: Seq<Seq<u8>>) -> Seq<u8>
    decreases recs.len(),
{
    if recs.len() == 0 {
        Seq::empty()
    } else {
        flatten(recs.drop_last()) + recs.last()
    }
}

/// Each record comes before the next one in lexicographic order.
pub open spec fn strictly_ascending(recs: Seq<Seq<u8>>) -> bool {
    forall|i: int, j: int| 0 <= i < j < recs.len() ==> lex_lt(recs[i], recs[j])
}

/// The records of `size` bytes, sorted and each kept once, one after another.
pub fn chunk_sort(a: Vec<u8>, size: &usize) -> (res: Vec<u8>)
    requires
        *size > 0,
        a@.len() % (*size as nat) == 0,
    ensures
        exists|recs: Seq<Seq<u8>>|
            #![trigger flatten(recs)]
            res@ == flatten(recs) && strictly_ascending(recs) && (forall|i: int|
                0 <= i < recs.len() ==> #[trigger] recs[i].len() == *size) && recs.to_set()
                == chunks(a@, *size as nat).to_set(),
{
    let sz = *size;
    let n = a.len();
    let mut keys: Vec<Vec<u8>> = Vec::new();
    let mut pos: usize = 0;
    proof {
        assert(a@.subrange(0, 0).len() == 0);
    }
    while pos < n
        invariant
            sz > 0,
            n == a@.len(),
            pos <= n,
            (n - pos) as int % (sz as int) == 0,
            keys@.map_values(|k: Vec<u8>| k@) == chunks(a@.subrange(0, pos as int), sz as nat),
            forall|i: int| 0 <= i < keys@.len() ==> (#[trigger] keys@[i])@.len() == sz,
        decreases n - pos,
    {
        proof {
            assert(n - pos >= sz) by (nonlinear_arith)
                requires
                    (n - pos) as int % (sz as int) == 0,
                    n - pos > 0,
                    sz > 0,
            ;
        }
        let rec = vstd::slice::slice_to_vec(vstd::slice::slice_subrange(a.as_slice(), pos, pos + sz));
        let ghost before = keys@;
        keys.push(rec);
        proof {
            let p2 = a@.subrange(0, pos + sz);
            assert(p2.subrange(0, p2.len() - sz) =~= a@.subrange(0, pos as int));
            assert(p2.subrange(p2.len() - sz, p2.len() as int) =~= rec@);
            assert(keys@.map_values(|k: Vec<u8>| k@) =~= before.map_values(|k: Vec<u8>| k@).push(rec@));
            assert((n - (pos + sz)) % (sz as int) == 0) by (nonlinear_arith)
                requires
                    (n - pos) as int % (sz as int) == 0,
                    n - pos >= sz,
                    sz > 0,
            ;
        }
        pos += sz;
    }
    proof {
        assert(a@.subrange(0, n as int) =~= a@);
    }
    let ghost ks = keys@.map_values(|k: Vec<u8>| k@);
    let order = stable_order(&keys);
    let mut out: Vec<u8> = Vec::new();
    let ghost mut recs: Seq<Seq<u8>> = Seq::empty();
    let mut t: usize = 0;
    let mut last: Option<usize> = None;
    while t < order.len()
        invariant
            ks == keys@.map_values(|k: Vec<u8>| k@),
            ks == chunks(a@, sz as nat),
            is_permutation(order@, keys@.len()),
            crate::sorting::in_key_order(ks, order@),
            t <= order@.len(),
            out@ == flatten(recs),
            strictly_ascending(recs),
            forall|i: int| 0 <= i < recs.len() ==> #[trigger] recs[i].len() == sz,
            forall|i: int| 0 <= i < keys@.len() ==> (#[trigger] ks[i]).len() == sz,
            t == 0 <==> last is None,
            last matches Some(li) ==> t > 0 && li == order@[t - 1] && recs.len() > 0 && recs.last() == ks[li as int],
            forall|i: int| 0 <= i < recs.len() ==> exists|u: int| 0 <= u < t && #[trigger] recs[i] == ks[order@[u] as int],
            forall|u: int| 0 <= u < t ==> recs.contains(#[trigger] ks[order@[u] as int]),
        decreases order@.len() - t,
    {
        let k = order[t];
        proof {
            assert(order@[t as int] < keys@.len());
        }
        let keep = match last {
            None => true,
            Some(li) => {
                let same = !lex_less(keys[li].as_slice(), keys[k].as_slice()) && !lex_less(keys[k].as_slice(), keys[li].as_slice());
                !same
            },
        };
        proof {
            if let Some(li) = last {
                lemma_lex_order(ks[li as int], ks[k as int], ks[k as int]);
                assert(key_before(ks, order@[t - 1] as int, order@[t as int] as int));
                if keep {
                    assert(lex_lt(ks[li as int], ks[k as int]));
                }
            }
        }
        if keep {
            let ghost before = out@;
            let ghost recs0 = recs;
            let mut j: usize = 0;
            while j < keys[k].len()
                invariant
                    k < keys@.len(),
                    j <= keys@[k as int]@.len(),
                    out@ == before + keys@[k as int]@.subrange(0, j as int),
                decreases keys@[k as int]@.len() - j,
            {
                out.push(keys[k][j]);
                proof {
                    assert(out@ =~= before + keys@[k as int]@.subrange(0, j + 1));
                }
                j += 1;
            }
            proof {
                assert(keys@[k as int]@.subrange(0, j as int) =~= ks[k as int]);
                recs = recs.push(ks[k as int]);
                assert(recs.drop_last() =~= recs0);
                assert forall|x: int, y: int| 0 <= x < y < recs.len() implies lex_lt(recs[x], recs[y]) by {
                    if y == recs.len() - 1 && x < y {
                        if let Some(li) = last {
                            if x < recs.len() - 2 {
                                lemma_lex_order(recs[x], ks[li as int], ks[k as int]);
                            }
                        }
                    }
                }
            }
        } else {
            proof {
                if let Some(li) = last {
                    lemma_lex_order(ks[li as int], ks[k as int], ks[k as int]);
                    assert(ks[li as int] == ks[k as int]);
                }
            }
        }
        proof {
            assert forall|u: int| 0 <= u < t + 1 implies recs.contains(#[trigger] ks[order@[u] as int]) by {
                if u == t {
                    if keep {
                        assert(recs[recs.len() - 1] == ks[k as int]);
                    } else {
                        assert(recs[recs.len() - 1] == ks[k as int]);
                    }
                }
            }
            assert forall|i: int| 0 <= i < recs.len() implies exists|u: int| 0 <= u < t + 1 && #[trigger] recs[i] == ks[order@[u] as int] by {
                if keep && i == recs.len() - 1 {
                    assert(recs[i] == ks[order@[t as int] as int]);
                }
            }
        }
        last = Some(k);
        t += 1;
    }
    proof {
        assert forall|x: Seq<u8>| recs.to_set().contains(x) <==> ks.to_set().contains(x) by {
            if recs.contains(x) {
                let i = choose|i: int| 0 <= i < recs.len() && recs[i] == x;
                let u = choose|u: int| 0 <= u < t && #[trigger] recs[i] == ks[order@[u] as int];
                assert(order@[u] < keys@.len());
            }
            if ks.contains(x) {
                let i = choose|i: int| 0 <= i < ks.len() && ks[i] == x;
                assert(lists(order@, i));
                let u = choose|u: int| 0 <= u < order@.len() && order@[u] == i;
                assert(recs.contains(ks[order@[u] as int]));
            }
        }
        assert(recs.to_set() =~= ks.to_set());
    }
    out
}

/// The records of `size` bytes that `a` holds, taken from the front.
pub open spec fn front_chunks(a: Seq<u8>, size: nat) -> Seq<Seq<u8>>
    decreases a.len(),
{
    if size == 0 || a.len() < size {
        Seq::empty()
    } else {
        seq![a.subrange(0, size as int)] + front_chunks(a.subrange(size as int, a.len() as int), size)
    }
}

/// The records one after another, from the front.
pub open spec fn concat(recs: Seq<Seq<u8>>) -> Seq<u8>
    decreases recs.len(),
{
    if recs.len() == 0 {
        Seq::empty()
    } else {
        recs[0] + concat(recs.drop_first())
    }
}

/// Two runs of records merged by their heads: the smaller head goes first, and of two equal
/// heads the first run's goes and the second run's is dropped.
pub open spec fn merged(r1: Seq<Seq<u8>>, r2: Seq<Seq<u8>>) -> Seq<Seq<u8>>
    decreases r1.len() + r2.len(),
{
    if r1.len() == 0 {
        r2
    } else if r2.len() == 0 {
        r1
    } else if lex_lt(r1[0], r2[0]) {
        seq![r1[0]] + merged(r1.drop_first(), r2)
    } else if lex_lt(r2[0], r1[0]) {
        seq![r2[0]] + merged(r1, r2.drop_first())
    } else {
        seq![r1[0]] + merged(r1.drop_first(), r2.drop_first())
    }
}

proof fn lemma_concat_front(h: Seq<u8>, t: Seq<Seq<u8>>)
    ensures
        concat(seq![h] + t) == h + concat(t),
{
    let s = seq![h] + t;
    assert(s[0] == h);
    assert(s.drop_first() =~= t);
}

proof fn lemma_front_chunks_step(a: Seq<u8>, size: nat, i: int)
    requires
        size > 0,
        0 <= i,
        i + size <= a.len(),
    ensures
        front_chunks(a.subrange(i, a.len() as int), size)
            == seq![a.subrange(i, i + size)] + front_chunks(a.subrange(i + size, a.len() as int), size),
{
    let r = a.subrange(i, a.len() as int);
    assert(r.subrange(0, size as int) =~= a.subrange(i, i + size));
    assert(r.subrange(size as int, r.len() as int) =~= a.subrange(i + size, a.len() as int));
}

/// Merges two runs of records of `size` bytes by their heads, as `merged` says; a run that
/// is empty hands the other back as it is.
pub fn merge_chunks(a1: Vec<u8>, a2: Vec<u8>, size: &usize) -> (res: Vec<u8>)
    requires
        a1@.len() > 0 && a2@.len() > 0 ==> *size > 0 && a1@.len() % (*size as nat) == 0 && a2@.len() % (*size as nat) == 0,
    ensures
        a1@.len() == 0 ==> res@ == a2@,
        a1@.len() > 0 && a2@.len() == 0 ==> res@ == a1@,
        a1@.len() > 0 && a2@.len() > 0 ==> res@ == concat(merged(front_chunks(a1@, *size as nat), front_chunks(a2@, *size as nat))),
{
    if a1.len() == 0 {
        return a2;
    }
    if a2.len() == 0 {
        return a1;
    }
    let sz = *size;
    let n1 = a1.len();
    let n2 = a2.len();
    let ghost total = concat(merged(front_chunks(a1@, sz as nat), front_chunks(a2@, sz as nat)));
    let mut out: Vec<u8> = Vec::new();
    let mut li: usize = 0;
    let mut ri: usize = 0;
    proof {
        assert(a1@.subrange(0, n1 as int) =~= a1@);
        assert(a2@.subrange(0, n2 as int) =~= a2@);
        assert(out@ + total =~= total);
    }
    while li < n1 || ri < n2
        invariant
            sz > 0,
            n1 == a1@.len(),
            n2 == a2@.len(),
            li <= n1,
            ri <= n2,
            (n1 - li) as int % (sz as int) == 0,
            (n2 - ri) as int % (sz as int) == 0,
            out@ + concat(merged(front_chunks(a1@.subrange(li as int, n1 as int), sz as nat), front_chunks(a2@.subrange(ri as int, n2 as int), sz as nat))) == total,
        decreases (n1 - li) + (n2 - ri),
    {
        let ghost r1 = front_chunks(a1@.subrange(li as int, n1 as int), sz as nat);
        let ghost r2 = front_chunks(a2@.subrange(ri as int, n2 as int), sz as nat);
        proof {
            if li < n1 {
                assert(n1 - li >= sz) by (nonlinear_arith)
                    requires
                        (n1 - li) as int % (sz as int) == 0,
                        n1 - li > 0,
                        sz > 0,
                ;
                assert((n1 - (li + sz)) as int % (sz as int) == 0) by (nonlinear_arith)
                    requires
                        (n1 - li) as int % (sz as int) == 0,
                        n1 - li >= sz,
                        sz > 0,
                ;
                lemma_front_chunks_step(a1@, sz as nat, li as int);
                assert(r1.drop_first() =~= front_chunks(a1@.subrange(li + sz, n1 as int), sz as nat));
                assert(r1[0] == a1@.subrange(li as int, li + sz));
            } else {
                assert(r1.len() == 0);
            }
            if ri < n2 {
                assert(n2 - ri >= sz) by (nonlinear_arith)
                    requires
                        (n2 - ri) as int % (sz as int) == 0,
                        n2 - ri > 0,
                        sz > 0,
                ;
                assert((n2 - (ri + sz)) as int % (sz as int) == 0) by (nonlinear_arith)
                    requires
                        (n2 - ri) as int % (sz as int) == 0,
                        n2 - ri >= sz,
                        sz > 0,
                ;
                lemma_front_chunks_step(a2@, sz as nat, ri as int);
                assert(r2.drop_first() =~= front_chunks(a2@.subrange(ri + sz, n2 as int), sz as nat));
                assert(r2[0] == a2@.subrange(ri as int, ri + sz));
            } else {
                assert(r2.len() == 0);
            }
        }
        let ghost before = out@;
        if li == n1 {
            let mut c = vstd::slice::slice_to_vec(vstd::slice::slice_subrange(a2.as_slice(), ri, ri + sz));
            out.append(&mut c);
            proof {
                lemma_concat_front(r2[0], r2.drop_first());
                assert(r2 =~= seq![r2[0]] + r2.drop_first());
                assert(merged(r1, r2) == r2);
                assert(merged(r1, r2.drop_first()) == r2.drop_first());
                assert(before + (r2[0] + concat(r2.drop_first())) =~= out@ + concat(r2.drop_first()));
            }
            ri += sz;
        } else if ri == n2 {
            let mut c = vstd::slice::slice_to_vec(vstd::slice::slice_subrange(a1.as_slice(), li, li + sz));
            out.append(&mut c);
            proof {
                lemma_concat_front(r1[0], r1.drop_first());
                assert(r1 =~= seq![r1[0]] + r1.drop_first());
                assert(merged(r1, r2) == r1);
                assert(merged(r1.drop_first(), r2) == r1.drop_first());
                assert(before + (r1[0] + concat(r1.drop_first())) =~= out@ + concat(r1.drop_first()));
            }
            li += sz;
        } else {
            let x = vstd::slice::slice_subrange(a1.as_slice(), li, li + sz);
            let y = vstd::slice::slice_subrange(a2.as_slice(), ri, ri + sz);
            if lex_less(x, y) {
                let mut c = vstd::slice::slice_to_vec(x);
                out.append(&mut c);
                proof {
                    let m = merged(r1.drop_first(), r2);
                    lemma_concat_front(r1[0], m);
                    assert(before + (r1[0] + concat(m)) =~= out@ + concat(m));
                }
                li += sz;
            } else if lex_less(y, x) {
                let mut c = vstd::slice::slice_to_vec(y);
                out.append(&mut c);
                proof {
                    let m = merged(r1, r2.drop_first());
                    lemma_concat_front(r2[0], m);
                    assert(before + (r2[0] + concat(m)) =~= out@ + concat(m));
                }
                ri += sz;
            } else {
                let mut c = vstd::slice::slice_to_vec(x);
                out.append(&mut c);
                proof {
                    let m = merged(r1.drop_first(), r2.drop_first());
                    lemma_concat_front(r1[0], m);
                    assert(before + (r1[0] + concat(m)) =~= out@ + concat(m));
                }
                li += sz;
                ri += sz;
            }
        }
    }
    proof {
        assert(a1@.subrange(li as int, n1 as int).len() == 0);
        assert(a2@.subrange(ri as int, n2 as int).len() == 0);
        assert(out@ =~= total);
    }
    out
}

proof fn lemma_ascending_prepend(h: Seq<u8>, m: Seq<Seq<u8>>)
    requires
        strictly_ascending(m),
        forall|j: int| 0 <= j < m.len() ==> lex_lt(h, #[trigger] m[j]),
    ensures
        strictly_ascending(seq![h] + m),
{
    let s = seq![h] + m;
    assert forall|i: int, j: int| 0 <= i < j < s.len() implies lex_lt(s[i], s[j]) by {
        if i == 0 {
            assert(s[j] == m[j - 1]);
        } else {
            assert(s[i] == m[i - 1] && s[j] == m[j - 1]);
        }
    }
}

/// Merging two strictly ascending runs gives a strictly ascending run that holds exactly the
/// records of both, a record in both kept once.
pub proof fn law_merge_of_ascending_runs(r1: Seq<Seq<u8>>, r2: Seq<Seq<u8>>)
    requires
        strictly_ascending(r1),
        strictly_ascending(r2),
    ensures
        strictly_ascending(merged(r1, r2)),
        merged(r1, r2).to_set() == r1.to_set() + r2.to_set(),
    decreases r1.len() + r2.len(),
{
    if r1.len() == 0 {
        assert(r1.to_set() + r2.to_set() =~= r2.to_set());
    } else if r2.len() == 0 {
        assert(r1.to_set() + r2.to_set() =~= r1.to_set());
    } else {
        let a = r1[0];
        let b = r2[0];
        let t1 = r1.drop_first();
        let t2 = r2.drop_first();
        assert(strictly_ascending(t1)) by {
            assert forall|i: int, j: int| 0 <= i < j < t1.len() implies lex_lt(t1[i], t1[j]) by {
                assert(t1[i] == r1[i + 1] && t1[j] == r1[j + 1]);
            }
        }
        assert(strictly_ascending(t2)) by {
            assert forall|i: int, j: int| 0 <= i < j < t2.len() implies lex_lt(t2[i], t2[j]) by {
                assert(t2[i] == r2[i + 1] && t2[j] == r2[j + 1]);
            }
        }
        assert(r1 =~= seq![a] + t1);
        assert(r2 =~= seq![b] + t2);
        assert(r1.to_set() =~= t1.to_set().insert(a)) by {
            assert forall|x: Seq<u8>| r1.to_set().contains(x) <==> #[trigger] t1.to_set().insert(a).contains(x) by {
                if r1.to_set().contains(x) {
                    let i = choose|i: int| 0 <= i < r1.len() && r1[i] == x;
                    if i > 0 {
                        assert(t1[i - 1] == x);
                    }
                }
                if t1.to_set().contains(x) {
                    let i = choose|i: int| 0 <= i < t1.len() && t1[i] == x;
                    assert(r1[i + 1] == x);
                }
            }
        }
        assert(r2.to_set() =~= t2.to_set().insert(b)) by {
            assert forall|x: Seq<u8>| r2.to_set().contains(x) <==> #[trigger] t2.to_set().insert(b).contains(x) by {
                if r2.to_set().contains(x) {
                    let i = choose|i: int| 0 <= i < r2.len() && r2[i] == x;
                    if i > 0 {
                        assert(t2[i - 1] == x);
                    }
                }
                if t2.to_set().contains(x) {
                    let i = choose|i: int| 0 <= i < t2.len() && t2[i] == x;
                    assert(r2[i + 1] == x);
                }
            }
        }
        lemma_lex_order(a, b, a);
        if lex_lt(a, b) {
            law_merge_of_ascending_runs(t1, r2);
            let m = merged(t1, r2);
            assert forall|j: int| 0 <= j < m.len() implies lex_lt(a, #[trigger] m[j]) by {
                assert(m.to_set().contains(m[j]));
                if t1.to_set().contains(m[j]) {
                    let i = choose|i: int| 0 <= i < t1.len() && t1[i] == m[j];
                    assert(r1[i + 1] == m[j]);
                } else {
                    let i = choose|i: int| 0 <= i < r2.len() && r2[i] == m[j];
                    if i > 0 {
                        lemma_lex_order(a, b, m[j]);
                    }
                }
            }
            lemma_ascending_prepend(a, m);
            assert(merged(r1, r2) == seq![a] + m);
            assert(merged(r1, r2).to_set() =~= r1.to_set() + r2.to_set()) by {
                assert forall|x: Seq<u8>| (seq![a] + m).to_set().contains(x) <==> #[trigger] m.to_set().insert(a).contains(x) by {
                    if (seq![a] + m).to_set().contains(x) {
                        let i = choose|i: int| 0 <= i < m.len() + 1 && (seq![a] + m)[i] == x;
                        if i > 0 {
                            assert(m[i - 1] == x);
                        }
                    }
                    if m.to_set().contains(x) {
                        let i = choose|i: int| 0 <= i < m.len() && m[i] == x;
                        assert((seq![a] + m)[i + 1] == x);
                    }
                    if x == a {
                        assert((seq![a] + m)[0] == a);
                    }
                }
                assert((seq![a] + m).to_set() =~= m.to_set().insert(a));
            }
        } else if lex_lt(b, a) {
            law_merge_of_ascending_runs(r1, t2);
            let m = merged(r1, t2);
            assert forall|j: int| 0 <= j < m.len() implies lex_lt(b, #[trigger] m[j]) by {
                assert(m.to_set().contains(m[j]));
                if t2.to_set().contains(m[j]) {
                    let i = choose|i: int| 0 <= i < t2.len() && t2[i] == m[j];
                    assert(r2[i + 1] == m[j]);
                } else {
                    let i = choose|i: int| 0 <= i < r1.len() && r1[i] == m[j];
                    if i > 0 {
                        lemma_lex_order(b, a, m[j]);
                    }
                }
            }
            lemma_ascending_prepend(b, m);
            assert(merged(r1, r2) == seq![b] + m);
            assert(merged(r1, r2).to_set() =~= r1.to_set() + r2.to_set()) by {
                assert forall|x: Seq<u8>| (seq![b] + m).to_set().contains(x) <==> #[trigger] m.to_set().insert(b).contains(x) by {
                    if (seq![b] + m).to_set().contains(x) {
                        let i = choose|i: int| 0 <= i < m.len() + 1 && (seq![b] + m)[i] == x;
                        if i > 0 {
                            assert(m[i - 1] == x);
                        }
                    }
                    if m.to_set().contains(x) {
                        let i = choose|i: int| 0 <= i < m.len() && m[i] == x;
                        assert((seq![b] + m)[i + 1] == x);
                    }
                    if x == b {
                        assert((seq![b] + m)[0] == b);
                    }
                }
                assert((seq![b] + m).to_set() =~= m.to_set().insert(b));
            }
        } else {
            assert(a == b);
            law_merge_of_ascending_runs(t1, t2);
            let m = merged(t1, t2);
            assert forall|j: int| 0 <= j < m.len() implies lex_lt(a, #[trigger] m[j]) by {
                assert(m.to_set().contains(m[j]));
                if t1.to_set().contains(m[j]) {
                    let i = choose|i: int| 0 <= i < t1.len() && t1[i] == m[j];
                    assert(r1[i + 1] == m[j]);
                } else {
                    let i = choose|i: int| 0 <= i < t2.len() && t2[i] == m[j];
                    assert(r2[i + 1] == m[j]);
                }
            }
            lemma_ascending_prepend(a, m);
            assert(merged(r1, r2) == seq![a] + m);
            assert(merged(r1, r2).to_set() =~= r1.to_set() + r2.to_set()) by {
                assert forall|x: Seq<u8>| (seq![a] + m).to_set().contains(x) <==> #[trigger] m.to_set().insert(a).contains(x) by {
                    if (seq![a] + m).to_set().contains(x) {
                        let i = choose|i: int| 0 <= i < m.len() + 1 && (seq![a] + m)[i] == x;
                        if i > 0 {
                            assert(m[i - 1] == x);
                        }
                    }
                    if m.to_set().contains(x) {
                        let i = choose|i: int| 0 <= i < m.len() && m[i] == x;
                        assert((seq![a] + m)[i + 1] == x);
                    }
                    if x == a {
                        assert((seq![a] + m)[0] == a);
                    }
                }
                assert((seq![a] + m).to_set() =~= m.to_set().insert(a));
            }
        }
    }
}

} // verus!
