use vstd::prelude::*;
use crate::engine::SearchEngine;
use crate::fixed_heap::FixedHeap;
use crate::merging::strictly_sorted;
use crate::search::{finalized, CustomTrie, TrieLeaf, TrieLeaves, TrieNodeL1, TrieNodeRoot, WordViaCharr};

verus! {

/// A leaf as plain values: where its suffix starts, how long it is, and its ids.
pub type LeafV = (u32, u16, Seq<u32>);

/// A second-level node as plain values: its heap and its groups of leaves.
pub type L1V = (Seq<u32>, Seq<Seq<LeafV>>);

/// The first-level node as plain values: its heap and its second-level nodes.
pub type RootV = (Seq<u32>, Seq<L1V>);

/// An engine as plain values: the letter array and its two tries.
pub type EngineV = (Seq<u8>, RootV, RootV);

pub open spec fn leaf_view(l: TrieLeaf) -> LeafV {
    (l.suffix.start_idx, l.suffix.len, l.ids@)
}

pub open spec fn leaves_view(t: TrieLeaves) -> Seq<LeafV> {
    t.0@.map_values(|l: TrieLeaf| leaf_view(l))
}

pub open spec fn l1_view<const S: usize>(n: TrieNodeL1<S>) -> L1V {
    (n.out.arr@, n.children@.map_values(|t: TrieLeaves| leaves_view(t)))
}

pub open spec fn root_view<const S: usize>(r: TrieNodeRoot<S>) -> RootV {
    (r.out.arr@, r.children@.map_values(|n: TrieNodeL1<S>| l1_view(n)))
}

pub open spec fn engine_view<const S: usize>(e: SearchEngine<S>) -> EngineV {
    (e.tree.char_array@, root_view(e.tree.prefix_tree), root_view(e.tree.inner_tree))
}

// ---- well-formedness over plain values ----

pub open spec fn leafv_wf(l: LeafV, ca: Seq<u8>) -> bool {
    l.0 + l.1 <= ca.len() && strictly_sorted(l.2)
}

pub open spec fn leavesv_wf(ls: Seq<LeafV>, ca: Seq<u8>) -> bool {
    forall|i: int| 0 <= i < ls.len() ==> #[trigger] leafv_wf(ls[i], ca)
}

pub open spec fn l1v_wf(n: L1V, ca: Seq<u8>, s: nat) -> bool {
    &&& n.0.len() == s
    &&& finalized(n.0)
    &&& n.1.len() == 26
    &&& forall|c: int| 0 <= c < 26 ==> #[trigger] leavesv_wf(n.1[c], ca)
}

pub open spec fn rootv_wf(r: RootV, ca: Seq<u8>, s: nat) -> bool {
    &&& r.0.len() == s
    &&& finalized(r.0)
    &&& r.1.len() == 26
    &&& forall|c: int| 0 <= c < 26 ==> #[trigger] l1v_wf(r.1[c], ca, s)
}

pub open spec fn enginev_wf(e: EngineV, s: nat) -> bool {
    rootv_wf(e.1, e.0, s) && rootv_wf(e.2, e.0, s)
}

/// Every count the encoding writes fits a `u32`.
pub open spec fn encodable(e: EngineV, s: nat) -> bool {
    &&& s <= u32::MAX
    &&& e.0.len() <= u64::MAX
    &&& root_encodable(e.1)
    &&& root_encodable(e.2)
}

pub open spec fn leaves_encodable(ls: Seq<LeafV>) -> bool {
    ls.len() <= u32::MAX && forall|i: int| 0 <= i < ls.len() ==> #[trigger] ls[i].2.len() <= u32::MAX
}

pub open spec fn root_encodable(r: RootV) -> bool {
    forall|c: int, d: int| 0 <= c < r.1.len() && 0 <= d < r.1[c].1.len() ==> #[trigger] leaves_encodable(r.1[c].1[d])
}

// ---- encoding ----

/// Two bytes, the low one first.
pub open spec fn enc_u16(x: u16) -> Seq<u8> {
    seq![(x % 256) as u8, (x / 256) as u8]
}

/// Four bytes, the lowest first.
pub open spec fn enc_u32(x: u32) -> Seq<u8> {
    seq![(x % 256) as u8, ((x / 256) % 256) as u8, ((x / 65536) % 256) as u8, (x / 16777216) as u8]
}

/// Eight bytes, the lowest first.
pub open spec fn enc_u64(x: u64) -> Seq<u8> {
    enc_u32((x % 0x1_0000_0000) as u32) + enc_u32((x / 0x1_0000_0000) as u32)
}

pub open spec fn enc_u32s(s: Seq<u32>) -> Seq<u8>
    decreases s.len(),
{
    if s.len() == 0 {
        Seq::empty()
    } else {
        enc_u32s(s.drop_last()) + enc_u32(s.last())
    }
}

pub open spec fn enc_leaf(l: LeafV) -> Seq<u8> {
    enc_u32(l.0) + enc_u16(l.1) + enc_u32(l.2.len() as u32) + enc_u32s(l.2)
}

pub open spec fn enc_leaf_list(ls: Seq<LeafV>) -> Seq<u8>
    decreases ls.len(),
{
    if ls.len() == 0 {
        Seq::empty()
    } else {
        enc_leaf_list(ls.drop_last()) + enc_leaf(ls.last())
    }
}

pub open spec fn enc_leaves(ls: Seq<LeafV>) -> Seq<u8> {
    enc_u32(ls.len() as u32) + enc_leaf_list(ls)
}

pub open spec fn enc_groups(gs: Seq<Seq<LeafV>>) -> Seq<u8>
    decreases gs.len(),
{
    if gs.len() == 0 {
        Seq::empty()
    } else {
        enc_groups(gs.drop_last()) + enc_leaves(gs.last())
    }
}

pub open spec fn enc_l1(n: L1V) -> Seq<u8> {
    enc_u32s(n.0) + enc_groups(n.1)
}

pub open spec fn enc_l1s(ns: Seq<L1V>) -> Seq<u8>
    decreases ns.len(),
{
    if ns.len() == 0 {
        Seq::empty()
    } else {
        enc_l1s(ns.drop_last()) + enc_l1(ns.last())
    }
}

pub open spec fn enc_root(r: RootV) -> Seq<u8> {
    enc_u32s(r.0) + enc_l1s(r.1)
}

/// The bytes that open every saved engine.
pub open spec fn magic() -> Seq<u8> {
    seq![77u8, 87, 83, 1]
}

/// A saved engine: the opening bytes, the engine's size, the letter array with its length,
/// then the prefix trie and the trie of inner parts, each heap and list written in order and
/// every number in little-endian order.
pub open spec fn enc_engine(e: EngineV, s: nat) -> Seq<u8> {
    magic() + enc_u32(s as u32) + enc_u64(e.0.len() as u64) + e.0 + enc_root(e.1) + enc_root(e.2)
}

// ---- decoding ----

pub open spec fn dec_u16(b: Seq<u8>, p: int) -> Option<(u16, int)> {
    if 0 <= p && p + 2 <= b.len() {
        Some(((b[p] + 256 * b[p + 1]) as u16, p + 2))
    } else {
        None
    }
}

pub open spec fn dec_u32(b: Seq<u8>, p: int) -> Option<(u32, int)> {
    if 0 <= p && p + 4 <= b.len() {
        Some(((b[p] + 256 * b[p + 1] + 65536 * b[p + 2] + 16777216 * b[p + 3]) as u32, p + 4))
    } else {
        None
    }
}

pub open spec fn dec_u64(b: Seq<u8>, p: int) -> Option<(u64, int)> {
    match dec_u32(b, p) {
        Some((lo, q)) => match dec_u32(b, q) {
            Some((hi, r)) => Some(((lo + 0x1_0000_0000 * hi) as u64, r)),
            None => None,
        },
        None => None,
    }
}

pub open spec fn dec_u32s(b: Seq<u8>, p: int, k: nat) -> Option<(Seq<u32>, int)>
    decreases k,
{
    if k == 0 {
        Some((Seq::empty(), p))
    } else {
        match dec_u32s(b, p, (k - 1) as nat) {
            Some((s, q)) => match dec_u32(b, q) {
                Some((x, r)) => Some((s.push(x), r)),
                None => None,
            },
            None => None,
        }
    }
}

pub open spec fn dec_leaf(b: Seq<u8>, p: int) -> Option<(LeafV, int)> {
    match dec_u32(b, p) {
        Some((st, p1)) => match dec_u16(b, p1) {
            Some((ln, p2)) => match dec_u32(b, p2) {
                Some((c, p3)) => match dec_u32s(b, p3, c as nat) {
                    Some((ids, p4)) => Some(((st, ln, ids), p4)),
                    None => None,
                },
                None => None,
            },
            None => None,
        },
        None => None,
    }
}

pub open spec fn dec_leaf_list(b: Seq<u8>, p: int, k: nat) -> Option<(Seq<LeafV>, int)>
    decreases k,
{
    if k == 0 {
        Some((Seq::empty(), p))
    } else {
        match dec_leaf_list(b, p, (k - 1) as nat) {
            Some((s, q)) => match dec_leaf(b, q) {
                Some((x, r)) => Some((s.push(x), r)),
                None => None,
            },
            None => None,
        }
    }
}

pub open spec fn dec_leaves(b: Seq<u8>, p: int) -> Option<(Seq<LeafV>, int)> {
    match dec_u32(b, p) {
        Some((c, q)) => dec_leaf_list(b, q, c as nat),
        None => None,
    }
}

pub open spec fn dec_groups(b: Seq<u8>, p: int, k: nat) -> Option<(Seq<Seq<LeafV>>, int)>
    decreases k,
{
    if k == 0 {
        Some((Seq::empty(), p))
    } else {
        match dec_groups(b, p, (k - 1) as nat) {
            Some((s, q)) => match dec_leaves(b, q) {
                Some((x, r)) => Some((s.push(x), r)),
                None => None,
            },
            None => None,
        }
    }
}

pub open spec fn dec_l1(b: Seq<u8>, p: int, s: nat) -> Option<(L1V, int)> {
    match dec_u32s(b, p, s) {
        Some((h, q)) => match dec_groups(b, q, 26) {
            Some((g, r)) => Some(((h, g), r)),
            None => None,
        },
        None => None,
    }
}

pub open spec fn dec_l1s(b: Seq<u8>, p: int, s: nat, k: nat) -> Option<(Seq<L1V>, int)>
    decreases k,
{
    if k == 0 {
        Some((Seq::empty(), p))
    } else {
        match dec_l1s(b, p, s, (k - 1) as nat) {
            Some((v, q)) => match dec_l1(b, q, s) {
                Some((x, r)) => Some((v.push(x), r)),
                None => None,
            },
            None => None,
        }
    }
}

pub open spec fn dec_root(b: Seq<u8>, p: int, s: nat) -> Option<(RootV, int)> {
    match dec_u32s(b, p, s) {
        Some((h, q)) => match dec_l1s(b, q, s, 26) {
            Some((c, r)) => Some(((h, c), r)),
            None => None,
        },
        None => None,
    }
}

/// What the bytes hold as a saved engine of size `s`, where they start with one.
pub open spec fn dec_engine(b: Seq<u8>, s: nat) -> Option<EngineV> {
    if b.len() < 4 || b.subrange(0, 4) != magic() {
        None
    } else {
        match dec_u32(b, 4) {
            Some((sz, p1)) => if sz != s {
                None
            } else {
                match dec_u64(b, p1) {
                    Some((cal, p2)) => if p2 + cal > b.len() {
                        None
                    } else {
                        let ca = b.subrange(p2, p2 + cal);
                        match dec_root(b, p2 + cal, s) {
                            Some((r1, p3)) => match dec_root(b, p3, s) {
                                Some((r2, _p4)) => Some((ca, r1, r2)),
                                None => None,
                            },
                            None => None,
                        }
                    },
                    None => None,
                }
            },
            None => None,
        }
    }
}

// ---- decoding what was encoded ----

proof fn lemma_dec_u16(b: Seq<u8>, p: int, x: u16)
    requires
        0 <= p,
        p + 2 <= b.len(),
        b.subrange(p, p + 2) == enc_u16(x),
    ensures
        dec_u16(b, p) == Some((x, p + 2)),
{
    assert(b[p] == enc_u16(x)[0]);
    assert(b[p + 1] == enc_u16(x)[1]);
    assert(b[p] + 256 * b[p + 1] == x) by (nonlinear_arith)
        requires
            b[p] == (x % 256) as u8,
            b[p + 1] == (x / 256) as u8,
            x <= 65535,
    ;
}

proof fn lemma_dec_u32(b: Seq<u8>, p: int, x: u32)
    requires
        0 <= p,
        p + 4 <= b.len(),
        b.subrange(p, p + 4) == enc_u32(x),
    ensures
        dec_u32(b, p) == Some((x, p + 4)),
{
    let e = enc_u32(x);
    assert(b[p] == e[0]);
    assert(b[p + 1] == e[1]);
    assert(b[p + 2] == e[2]);
    assert(b[p + 3] == e[3]);
    assert(b[p] + 256 * b[p + 1] + 65536 * b[p + 2] + 16777216 * b[p + 3] == x) by (nonlinear_arith)
        requires
            b[p] == (x % 256) as u8,
            b[p + 1] == ((x / 256) % 256) as u8,
            b[p + 2] == ((x / 65536) % 256) as u8,
            b[p + 3] == (x / 16777216) as u8,
            x <= 0xffff_ffff,
    ;
}

proof fn lemma_dec_u64(b: Seq<u8>, p: int, x: u64)
    requires
        0 <= p,
        p + 8 <= b.len(),
        b.subrange(p, p + 8) == enc_u64(x),
    ensures
        dec_u64(b, p) == Some((x, p + 8)),
{
    let lo = (x % 0x1_0000_0000) as u32;
    let hi = (x / 0x1_0000_0000) as u32;
    assert(b.subrange(p, p + 4) =~= b.subrange(p, p + 8).subrange(0, 4));
    assert(b.subrange(p + 4, p + 8) =~= b.subrange(p, p + 8).subrange(4, 8));
    assert(enc_u64(x).subrange(0, 4) =~= enc_u32(lo));
    assert(enc_u64(x).subrange(4, 8) =~= enc_u32(hi));
    lemma_dec_u32(b, p, lo);
    lemma_dec_u32(b, p + 4, hi);
    assert(lo + 0x1_0000_0000 * hi == x) by (nonlinear_arith)
        requires
            lo == x % 0x1_0000_0000,
            hi == x / 0x1_0000_0000,
    ;
}

/// A stretch of `b` that equals `a + c` splits into the stretch of `a` and the one of `c`.
proof fn lemma_split(b: Seq<u8>, p: int, a: Seq<u8>, c: Seq<u8>)
    requires
        0 <= p,
        p + a.len() + c.len() <= b.len(),
        b.subrange(p, p + a.len() + c.len()) == a + c,
    ensures
        b.subrange(p, p + a.len()) == a,
        b.subrange(p + a.len(), p + a.len() + c.len()) == c,
{
    assert(b.subrange(p, p + a.len()) =~= (a + c).subrange(0, a.len() as int));
    assert(b.subrange(p + a.len(), p + a.len() + c.len()) =~= (a + c).subrange(a.len() as int, (a.len() + c.len()) as int));
}

proof fn lemma_enc_u32s_len(s: Seq<u32>)
    ensures
        enc_u32s(s).len() == 4 * s.len(),
    decreases s.len(),
{
    if s.len() > 0 {
        lemma_enc_u32s_len(s.drop_last());
    }
}

proof fn lemma_dec_u32s(b: Seq<u8>, p: int, s: Seq<u32>)
    requires
        0 <= p,
        p + enc_u32s(s).len() <= b.len(),
        b.subrange(p, p + enc_u32s(s).len()) == enc_u32s(s),
    ensures
        dec_u32s(b, p, s.len()) == Some((s, p + enc_u32s(s).len())),
    decreases s.len(),
{
    if s.len() == 0 {
        assert(s =~= Seq::<u32>::empty());
    } else {
        let a = enc_u32s(s.drop_last());
        let c = enc_u32(s.last());
        lemma_split(b, p, a, c);
        lemma_dec_u32s(b, p, s.drop_last());
        lemma_dec_u32(b, p + a.len(), s.last());
        assert(s.drop_last().push(s.last()) =~= s);
    }
}

proof fn lemma_dec_leaf(b: Seq<u8>, p: int, l: LeafV)
    requires
        0 <= p,
        l.2.len() <= u32::MAX,
        p + enc_leaf(l).len() <= b.len(),
        b.subrange(p, p + enc_leaf(l).len()) == enc_leaf(l),
    ensures
        dec_leaf(b, p) == Some((l, p + enc_leaf(l).len())),
{
    let e1 = enc_u32(l.0);
    let e2 = enc_u16(l.1);
    let e3 = enc_u32(l.2.len() as u32);
    let e4 = enc_u32s(l.2);
    assert(enc_leaf(l) == e1 + e2 + e3 + e4);
    lemma_split(b, p, e1 + e2 + e3, e4);
    lemma_split(b, p, e1 + e2, e3);
    lemma_split(b, p, e1, e2);
    lemma_dec_u32(b, p, l.0);
    lemma_dec_u16(b, p + 4, l.1);
    lemma_dec_u32(b, p + 6, l.2.len() as u32);
    lemma_dec_u32s(b, p + 10, l.2);
}

proof fn lemma_dec_leaf_list(b: Seq<u8>, p: int, ls: Seq<LeafV>)
    requires
        0 <= p,
        forall|i: int| 0 <= i < ls.len() ==> #[trigger] ls[i].2.len() <= u32::MAX,
        p + enc_leaf_list(ls).len() <= b.len(),
        b.subrange(p, p + enc_leaf_list(ls).len()) == enc_leaf_list(ls),
    ensures
        dec_leaf_list(b, p, ls.len()) == Some((ls, p + enc_leaf_list(ls).len())),
    decreases ls.len(),
{
    if ls.len() == 0 {
        assert(ls =~= Seq::<LeafV>::empty());
    } else {
        let a = enc_leaf_list(ls.drop_last());
        let c = enc_leaf(ls.last());
        lemma_split(b, p, a, c);
        assert forall|i: int| 0 <= i < ls.drop_last().len() implies #[trigger] ls.drop_last()[i].2.len() <= u32::MAX by {
            assert(ls.drop_last()[i] == ls[i]);
        }
        lemma_dec_leaf_list(b, p, ls.drop_last());
        assert(ls[ls.len() - 1].2.len() <= u32::MAX);
        lemma_dec_leaf(b, p + a.len(), ls.last());
        assert(ls.drop_last().push(ls.last()) =~= ls);
    }
}

proof fn lemma_dec_leaves(b: Seq<u8>, p: int, ls: Seq<LeafV>)
    requires
        0 <= p,
        leaves_encodable(ls),
        p + enc_leaves(ls).len() <= b.len(),
        b.subrange(p, p + enc_leaves(ls).len()) == enc_leaves(ls),
    ensures
        dec_leaves(b, p) == Some((ls, p + enc_leaves(ls).len())),
{
    let a = enc_u32(ls.len() as u32);
    let c = enc_leaf_list(ls);
    lemma_split(b, p, a, c);
    lemma_dec_u32(b, p, ls.len() as u32);
    lemma_dec_leaf_list(b, p + 4, ls);
}

proof fn lemma_dec_groups(b: Seq<u8>, p: int, gs: Seq<Seq<LeafV>>)
    requires
        0 <= p,
        forall|i: int| 0 <= i < gs.len() ==> #[trigger] leaves_encodable(gs[i]),
        p + enc_groups(gs).len() <= b.len(),
        b.subrange(p, p + enc_groups(gs).len()) == enc_groups(gs),
    ensures
        dec_groups(b, p, gs.len()) == Some((gs, p + enc_groups(gs).len())),
    decreases gs.len(),
{
    if gs.len() == 0 {
        assert(gs =~= Seq::<Seq<LeafV>>::empty());
    } else {
        let a = enc_groups(gs.drop_last());
        let c = enc_leaves(gs.last());
        lemma_split(b, p, a, c);
        assert forall|i: int| 0 <= i < gs.drop_last().len() implies #[trigger] leaves_encodable(gs.drop_last()[i]) by {
            assert(gs.drop_last()[i] == gs[i]);
        }
        lemma_dec_groups(b, p, gs.drop_last());
        assert(leaves_encodable(gs[gs.len() - 1]));
        lemma_dec_leaves(b, p + a.len(), gs.last());
        assert(gs.drop_last().push(gs.last()) =~= gs);
    }
}

proof fn lemma_dec_l1(b: Seq<u8>, p: int, n: L1V, s: nat)
    requires
        0 <= p,
        n.0.len() == s,
        n.1.len() == 26,
        forall|i: int| 0 <= i < n.1.len() ==> #[trigger] leaves_encodable(n.1[i]),
        p + enc_l1(n).len() <= b.len(),
        b.subrange(p, p + enc_l1(n).len()) == enc_l1(n),
    ensures
        dec_l1(b, p, s) == Some((n, p + enc_l1(n).len())),
{
    let a = enc_u32s(n.0);
    let c = enc_groups(n.1);
    lemma_split(b, p, a, c);
    lemma_dec_u32s(b, p, n.0);
    lemma_dec_groups(b, p + a.len(), n.1);
}

proof fn lemma_dec_l1s(b: Seq<u8>, p: int, ns: Seq<L1V>, s: nat)
    requires
        0 <= p,
        forall|i: int| 0 <= i < ns.len() ==> #[trigger] ns[i].0.len() == s && ns[i].1.len() == 26,
        forall|i: int, j: int| 0 <= i < ns.len() && 0 <= j < ns[i].1.len() ==> #[trigger] leaves_encodable(ns[i].1[j]),
        p + enc_l1s(ns).len() <= b.len(),
        b.subrange(p, p + enc_l1s(ns).len()) == enc_l1s(ns),
    ensures
        dec_l1s(b, p, s, ns.len()) == Some((ns, p + enc_l1s(ns).len())),
    decreases ns.len(),
{
    if ns.len() == 0 {
        assert(ns =~= Seq::<L1V>::empty());
    } else {
        let a = enc_l1s(ns.drop_last());
        let c = enc_l1(ns.last());
        lemma_split(b, p, a, c);
        assert forall|i: int| 0 <= i < ns.drop_last().len() implies #[trigger] ns.drop_last()[i].0.len() == s && ns.drop_last()[i].1.len() == 26 by {
            assert(ns.drop_last()[i] == ns[i]);
        }
        assert forall|i: int, j: int| 0 <= i < ns.drop_last().len() && 0 <= j < ns.drop_last()[i].1.len() implies #[trigger] leaves_encodable(ns.drop_last()[i].1[j]) by {
            assert(ns.drop_last()[i] == ns[i]);
        }
        lemma_dec_l1s(b, p, ns.drop_last(), s);
        let last = ns.last();
        assert(last == ns[ns.len() - 1]);
        assert forall|j: int| 0 <= j < last.1.len() implies #[trigger] leaves_encodable(last.1[j]) by {
            assert(leaves_encodable(ns[ns.len() - 1].1[j]));
        }
        lemma_dec_l1(b, p + a.len(), last, s);
        assert(ns.drop_last().push(ns.last()) =~= ns);
    }
}

proof fn lemma_dec_root(b: Seq<u8>, p: int, r: RootV, ca: Seq<u8>, s: nat)
    requires
        0 <= p,
        rootv_wf(r, ca, s),
        root_encodable(r),
        p + enc_root(r).len() <= b.len(),
        b.subrange(p, p + enc_root(r).len()) == enc_root(r),
    ensures
        dec_root(b, p, s) == Some((r, p + enc_root(r).len())),
{
    let a = enc_u32s(r.0);
    let c = enc_l1s(r.1);
    lemma_split(b, p, a, c);
    lemma_dec_u32s(b, p, r.0);
    assert forall|i: int| 0 <= i < r.1.len() implies #[trigger] r.1[i].0.len() == s && r.1[i].1.len() == 26 by {
        assert(l1v_wf(r.1[i], ca, s));
    }
    lemma_dec_l1s(b, p + a.len(), r.1, s);
}

/// Loading what was saved gives the engine back: the bytes of a well-formed engine, followed
/// by anything, decode to that engine's values.
#[verifier::rlimit(60)]
pub proof fn law_saved_engine_loads_back(e: EngineV, s: nat, rest: Seq<u8>)
    requires
        enginev_wf(e, s),
        encodable(e, s),
    ensures
        dec_engine(enc_engine(e, s) + rest, s) == Some(e),
{
    let b = enc_engine(e, s) + rest;
    let m = magic();
    let es = enc_u32(s as u32);
    let el = enc_u64(e.0.len() as u64);
    let r1 = enc_root(e.1);
    let r2 = enc_root(e.2);
    let total = m + es + el + e.0 + r1 + r2;
    assert(enc_engine(e, s) == total);
    assert(b.subrange(0, total.len() as int) =~= total);
    lemma_split(b, 0, m + es + el + e.0 + r1, r2);
    lemma_split(b, 0, m + es + el + e.0, r1);
    lemma_split(b, 0, m + es + el, e.0);
    lemma_split(b, 0, m + es, el);
    lemma_split(b, 0, m, es);
    assert(b.subrange(0, 4) == m);
    lemma_dec_u32(b, 4, s as u32);
    lemma_dec_u64(b, 8, e.0.len() as u64);
    lemma_dec_root(b, 16 + e.0.len() as int, e.1, e.0, s);
    lemma_dec_root(b, 16 + e.0.len() + r1.len() as int, e.2, e.0, s);
}

/// `b2` starts with `b`.
pub open spec fn extends(b: Seq<u8>, b2: Seq<u8>) -> bool {
    b.len() <= b2.len() && forall|i: int| 0 <= i < b.len() ==> #[trigger] b2[i] == b[i]
}

/// A number read within `b` ends within it and reads the same from anything that starts
/// with `b`.
proof fn lemma_ext_fixed(b: Seq<u8>, b2: Seq<u8>, p: int)
    requires
        extends(b, b2),
    ensures
        dec_u16(b, p) matches Some((x, q)) ==> q <= b.len() && dec_u16(b2, p) == dec_u16(b, p),
        dec_u32(b, p) matches Some((x, q)) ==> q <= b.len() && dec_u32(b2, p) == dec_u32(b, p),
        dec_u64(b, p) matches Some((x, q)) ==> q <= b.len() && dec_u64(b2, p) == dec_u64(b, p),
{
    if dec_u16(b, p) is Some {
        assert(b2[p] == b[p] && b2[p + 1] == b[p + 1]);
    }
    if dec_u32(b, p) is Some {
        assert(b2[p] == b[p] && b2[p + 1] == b[p + 1] && b2[p + 2] == b[p + 2] && b2[p + 3] == b[p + 3]);
    }
    if dec_u32(b, p) is Some {
        let (lo, q) = dec_u32(b, p)->0;
        if dec_u32(b, q) is Some {
            assert(b2[q] == b[q] && b2[q + 1] == b[q + 1] && b2[q + 2] == b[q + 2] && b2[q + 3] == b[q + 3]);
        }
    }
}

proof fn lemma_ext_u32s(b: Seq<u8>, b2: Seq<u8>, p: int, k: nat)
    requires
        extends(b, b2),
        0 <= p <= b.len(),
    ensures
        dec_u32s(b, p, k) matches Some((x, q)) ==> p <= q <= b.len() && dec_u32s(b2, p, k) == dec_u32s(b, p, k),
    decreases k,
{
    if k > 0 {
        lemma_ext_u32s(b, b2, p, (k - 1) as nat);
        if dec_u32s(b, p, (k - 1) as nat) is Some {
            let (x, q) = dec_u32s(b, p, (k - 1) as nat)->0;
            lemma_ext_fixed(b, b2, q);
        }
    }
}

proof fn lemma_ext_leaf(b: Seq<u8>, b2: Seq<u8>, p: int)
    requires
        extends(b, b2),
    ensures
        dec_leaf(b, p) matches Some((x, q)) ==> q <= b.len() && dec_leaf(b2, p) == dec_leaf(b, p),
{
    lemma_ext_fixed(b, b2, p);
    if dec_u32(b, p) is Some {
        let (st, p1) = dec_u32(b, p)->0;
        lemma_ext_fixed(b, b2, p1);
        if dec_u16(b, p1) is Some {
            let (ln, p2) = dec_u16(b, p1)->0;
            lemma_ext_fixed(b, b2, p2);
            if dec_u32(b, p2) is Some {
                let (c, p3) = dec_u32(b, p2)->0;
                lemma_ext_u32s(b, b2, p3, c as nat);
            }
        }
    }
}

proof fn lemma_ext_leaf_list(b: Seq<u8>, b2: Seq<u8>, p: int, k: nat)
    requires
        extends(b, b2),
        0 <= p <= b.len(),
    ensures
        dec_leaf_list(b, p, k) matches Some((x, q)) ==> q <= b.len() && dec_leaf_list(b2, p, k)
            == dec_leaf_list(b, p, k),
    decreases k,
{
    if k > 0 {
        lemma_ext_leaf_list(b, b2, p, (k - 1) as nat);
        if dec_leaf_list(b, p, (k - 1) as nat) is Some {
            let (x, q) = dec_leaf_list(b, p, (k - 1) as nat)->0;
            lemma_ext_leaf(b, b2, q);
        }
    }
}

proof fn lemma_ext_groups(b: Seq<u8>, b2: Seq<u8>, p: int, k: nat)
    requires
        extends(b, b2),
        0 <= p <= b.len(),
    ensures
        dec_groups(b, p, k) matches Some((x, q)) ==> q <= b.len() && dec_groups(b2, p, k) == dec_groups(b, p, k),
    decreases k,
{
    if k > 0 {
        lemma_ext_groups(b, b2, p, (k - 1) as nat);
        if dec_groups(b, p, (k - 1) as nat) is Some {
            let (x, q) = dec_groups(b, p, (k - 1) as nat)->0;
            lemma_ext_fixed(b, b2, q);
            if dec_u32(b, q) is Some {
                let (c, q1) = dec_u32(b, q)->0;
                lemma_ext_leaf_list(b, b2, q1, c as nat);
            }
        }
    }
}

proof fn lemma_ext_l1s(b: Seq<u8>, b2: Seq<u8>, p: int, s: nat, k: nat)
    requires
        extends(b, b2),
        0 <= p <= b.len(),
    ensures
        dec_l1s(b, p, s, k) matches Some((x, q)) ==> q <= b.len() && dec_l1s(b2, p, s, k) == dec_l1s(
            b,
            p,
            s,
            k,
        ),
    decreases k,
{
    if k > 0 {
        lemma_ext_l1s(b, b2, p, s, (k - 1) as nat);
        if dec_l1s(b, p, s, (k - 1) as nat) is Some {
            let (x, q) = dec_l1s(b, p, s, (k - 1) as nat)->0;
            lemma_ext_u32s(b, b2, q, s);
            if dec_u32s(b, q, s) is Some {
                let (h, q1) = dec_u32s(b, q, s)->0;
                lemma_ext_groups(b, b2, q1, 26);
            }
        }
    }
}

proof fn lemma_ext_root(b: Seq<u8>, b2: Seq<u8>, p: int, s: nat)
    requires
        extends(b, b2),
        0 <= p <= b.len(),
    ensures
        dec_root(b, p, s) matches Some((x, q)) ==> q <= b.len() && dec_root(b2, p, s) == dec_root(b, p, s),
{
    lemma_ext_u32s(b, b2, p, s);
    if dec_u32s(b, p, s) is Some {
        let (h, q) = dec_u32s(b, p, s)->0;
        lemma_ext_l1s(b, b2, q, s, 26);
    }
}

/// Where the parts of a whole save end as it is read.
#[verifier::rlimit(40)]
proof fn lemma_save_positions(e: EngineV, s: nat)
    requires
        enginev_wf(e, s),
        encodable(e, s),
    ensures
        ({
            let b2 = enc_engine(e, s);
            let l = e.0.len() as int;
            let r1 = enc_root(e.1).len() as int;
            &&& b2.subrange(0, 4) == magic()
            &&& dec_u32(b2, 4) == Some((s as u32, 8int))
            &&& dec_u64(b2, 8) == Some((e.0.len() as u64, 16int))
            &&& dec_root(b2, 16 + l, s) == Some((e.1, 16 + l + r1))
            &&& dec_root(b2, 16 + l + r1, s) == Some((e.2, b2.len() as int))
        }),
{
    let b2 = enc_engine(e, s);
    let m = magic();
    let es = enc_u32(s as u32);
    let el = enc_u64(e.0.len() as u64);
    let e1 = enc_root(e.1);
    let e2 = enc_root(e.2);
    assert(b2 == m + es + el + e.0 + e1 + e2);
    assert(b2.subrange(0, b2.len() as int) =~= b2);
    lemma_split(b2, 0, m + es + el + e.0 + e1, e2);
    lemma_split(b2, 0, m + es + el + e.0, e1);
    lemma_split(b2, 0, m + es + el, e.0);
    lemma_split(b2, 0, m + es, el);
    lemma_split(b2, 0, m, es);
    lemma_dec_u32(b2, 4, s as u32);
    lemma_dec_u64(b2, 8, e.0.len() as u64);
    lemma_dec_root(b2, 16 + e.0.len() as int, e.1, e.0, s);
    lemma_dec_root(b2, 16 + e.0.len() + e1.len() as int, e.2, e.0, s);
}

/// A save cut short does not load: no proper prefix of a saved engine decodes.
pub proof fn law_cut_save_does_not_load(e: EngineV, s: nat, n: int)
    requires
        enginev_wf(e, s),
        encodable(e, s),
        0 <= n < enc_engine(e, s).len(),
    ensures
        dec_engine(enc_engine(e, s).subrange(0, n), s) is None,
{
    let b2 = enc_engine(e, s);
    let b = b2.subrange(0, n);
    assert(extends(b, b2));
    lemma_save_positions(e, s);
    if dec_engine(b, s) is Some {
        lemma_ext_fixed(b, b2, 4);
        lemma_ext_fixed(b, b2, 8);
        let l = e.0.len() as int;
        let r1 = enc_root(e.1).len() as int;
        assert(16 + l <= n);
        lemma_ext_root(b, b2, 16 + l, s);
        lemma_ext_root(b, b2, 16 + l + r1, s);
    }
}

// ---- the engine and its plain values ----

proof fn lemma_leaves_wf_view(t: TrieLeaves, ca: Seq<u8>)
    ensures
        t.wf(ca) <==> leavesv_wf(leaves_view(t), ca),
{
    let v = leaves_view(t);
    if t.wf(ca) {
        assert forall|i: int| 0 <= i < v.len() implies #[trigger] leafv_wf(v[i], ca) by {
            assert(t.0@[i].wf(ca));
        }
    }
    if leavesv_wf(v, ca) {
        assert forall|i: int| 0 <= i < t.0@.len() implies #[trigger] t.0@[i].wf(ca) by {
            assert(leafv_wf(v[i], ca));
        }
    }
}

proof fn lemma_l1_wf_view<const S: usize>(n: TrieNodeL1<S>, ca: Seq<u8>)
    ensures
        n.wf(ca) <==> l1v_wf(l1_view(n), ca, S as nat),
{
    let v = l1_view(n);
    assert forall|c: int| 0 <= c < n.children@.len() implies (#[trigger] n.children@[c]).wf(ca) <==> leavesv_wf(v.1[c], ca) by {
        lemma_leaves_wf_view(n.children@[c], ca);
    }
    if n.wf(ca) {
        assert forall|c: int| 0 <= c < 26 implies #[trigger] leavesv_wf(v.1[c], ca) by {
            assert(n.children@[c].wf(ca));
        }
    }
    if l1v_wf(v, ca, S as nat) {
        assert forall|c: int| 0 <= c < 26 implies #[trigger] n.children@[c].wf(ca) by {
            assert(leavesv_wf(v.1[c], ca));
        }
    }
}

proof fn lemma_root_wf_view<const S: usize>(r: TrieNodeRoot<S>, ca: Seq<u8>)
    ensures
        r.wf(ca) <==> rootv_wf(root_view(r), ca, S as nat),
{
    let v = root_view(r);
    assert forall|c: int| 0 <= c < r.children@.len() implies (#[trigger] r.children@[c]).wf(ca) <==> l1v_wf(v.1[c], ca, S as nat) by {
        lemma_l1_wf_view(r.children@[c], ca);
    }
    if r.wf(ca) {
        assert forall|c: int| 0 <= c < 26 implies #[trigger] l1v_wf(v.1[c], ca, S as nat) by {
            assert(r.children@[c].wf(ca));
        }
    }
    if rootv_wf(v, ca, S as nat) {
        assert forall|c: int| 0 <= c < 26 implies #[trigger] r.children@[c].wf(ca) by {
            assert(l1v_wf(v.1[c], ca, S as nat));
        }
    }
}

/// An engine is well formed exactly when its plain values are.
pub proof fn lemma_engine_wf_view<const S: usize>(e: SearchEngine<S>)
    ensures
        e.wf() <==> enginev_wf(engine_view(e), S as nat),
{
    lemma_root_wf_view(e.tree.prefix_tree, e.tree.char_array@);
    lemma_root_wf_view(e.tree.inner_tree, e.tree.char_array@);
}

// ---- writing ----

fn push_u16(out: &mut Vec<u8>, x: u16)
    ensures
        final(out)@ == old(out)@ + enc_u16(x),
{
    out.push((x % 256) as u8);
    out.push((x / 256) as u8);
    assert(out@ =~= old(out)@ + enc_u16(x));
}

fn push_u32(out: &mut Vec<u8>, x: u32)
    ensures
        final(out)@ == old(out)@ + enc_u32(x),
{
    out.push((x % 256) as u8);
    out.push(((x / 256) % 256) as u8);
    out.push(((x / 65536) % 256) as u8);
    out.push((x / 16777216) as u8);
    assert(out@ =~= old(out)@ + enc_u32(x));
}

fn push_u64(out: &mut Vec<u8>, x: u64)
    ensures
        final(out)@ == old(out)@ + enc_u64(x),
{
    push_u32(out, (x % 0x1_0000_0000) as u32);
    push_u32(out, (x / 0x1_0000_0000) as u32);
    assert(out@ =~= old(out)@ + enc_u64(x));
}

fn save_heap(arr: &Vec<u32>, out: &mut Vec<u8>)
    ensures
        final(out)@ == old(out)@ + enc_u32s(arr@),
{
    let mut i: usize = 0;
    assert(arr@.subrange(0, 0) =~= Seq::<u32>::empty());
    assert(out@ =~= old(out)@ + enc_u32s(arr@.subrange(0, 0)));
    while i < arr.len()
        invariant
            i <= arr@.len(),
            out@ == old(out)@ + enc_u32s(arr@.subrange(0, i as int)),
        decreases arr@.len() - i,
    {
        push_u32(out, arr[i]);
        proof {
            let s = arr@.subrange(0, i + 1);
            assert(s.drop_last() =~= arr@.subrange(0, i as int));
            assert(out@ =~= old(out)@ + enc_u32s(s));
        }
        i += 1;
    }
    assert(arr@.subrange(0, i as int) =~= arr@);
}

fn save_leaves(leaves: &TrieLeaves, out: &mut Vec<u8>)
    ensures
        final(out)@ == old(out)@ + enc_leaves(leaves_view(*leaves)),
{
    let ghost v = leaves_view(*leaves);
    #[verifier::truncate]
    let n = leaves.0.len() as u32;
    push_u32(out, n);
    let ghost start = out@;
    let mut i: usize = 0;
    assert(v.subrange(0, 0) =~= Seq::<LeafV>::empty());
    assert(out@ =~= start + enc_leaf_list(v.subrange(0, 0)));
    while i < leaves.0.len()
        invariant
            v == leaves_view(*leaves),
            i <= leaves.0@.len(),
            out@ == start + enc_leaf_list(v.subrange(0, i as int)),
        decreases leaves.0@.len() - i,
    {
        let leaf = &leaves.0[i];
        let ghost before = out@;
        push_u32(out, leaf.suffix.start_idx);
        push_u16(out, leaf.suffix.len);
        #[verifier::truncate]
        let c = leaf.ids.len() as u32;
        push_u32(out, c);
        save_heap(&leaf.ids, out);
        proof {
            let s = v.subrange(0, i + 1);
            assert(s.drop_last() =~= v.subrange(0, i as int));
            assert(s.last() == leaf_view(*leaf));
            assert(out@ =~= before + enc_leaf(leaf_view(*leaf)));
            assert(out@ =~= start + enc_leaf_list(s));
        }
        i += 1;
    }
    assert(v.subrange(0, i as int) =~= v);
    assert(out@ =~= old(out)@ + enc_leaves(v));
}

fn save_l1<const S: usize>(node: &TrieNodeL1<S>, out: &mut Vec<u8>)
    ensures
        final(out)@ == old(out)@ + enc_l1(l1_view(*node)),
{
    let ghost v = l1_view(*node);
    save_heap(&node.out.arr, out);
    let ghost start = out@;
    let mut i: usize = 0;
    assert(v.1.subrange(0, 0) =~= Seq::<Seq<LeafV>>::empty());
    assert(out@ =~= start + enc_groups(v.1.subrange(0, 0)));
    while i < node.children.len()
        invariant
            v == l1_view(*node),
            i <= node.children@.len(),
            out@ == start + enc_groups(v.1.subrange(0, i as int)),
        decreases node.children@.len() - i,
    {
        let ghost before = out@;
        save_leaves(&node.children[i], out);
        proof {
            let s = v.1.subrange(0, i + 1);
            assert(s.drop_last() =~= v.1.subrange(0, i as int));
            assert(out@ =~= start + enc_groups(s));
        }
        i += 1;
    }
    assert(v.1.subrange(0, i as int) =~= v.1);
    assert(out@ =~= old(out)@ + enc_l1(v));
}

fn save_root<const S: usize>(root: &TrieNodeRoot<S>, out: &mut Vec<u8>)
    ensures
        final(out)@ == old(out)@ + enc_root(root_view(*root)),
{
    let ghost v = root_view(*root);
    save_heap(&root.out.arr, out);
    let ghost start = out@;
    let mut i: usize = 0;
    assert(v.1.subrange(0, 0) =~= Seq::<L1V>::empty());
    assert(out@ =~= start + enc_l1s(v.1.subrange(0, 0)));
    while i < root.children.len()
        invariant
            v == root_view(*root),
            i <= root.children@.len(),
            out@ == start + enc_l1s(v.1.subrange(0, i as int)),
        decreases root.children@.len() - i,
    {
        save_l1(&root.children[i], out);
        proof {
            let s = v.1.subrange(0, i + 1);
            assert(s.drop_last() =~= v.1.subrange(0, i as int));
            assert(out@ =~= start + enc_l1s(s));
        }
        i += 1;
    }
    assert(v.1.subrange(0, i as int) =~= v.1);
    assert(out@ =~= old(out)@ + enc_root(v));
}

impl<const S: usize> SearchEngine<S> {
    /// Appends the engine's bytes: the opening bytes, its size, the letter array with its
    /// length, and its two tries.
    pub fn save(&self, out: &mut Vec<u8>)
        ensures
            final(out)@ == old(out)@ + enc_engine(engine_view(*self), S as nat),
    {
        out.push(77);
        out.push(87);
        out.push(83);
        out.push(1);
        #[verifier::truncate]
        let sz = S as u32;
        push_u32(out, sz);
        let ca = &self.tree.char_array;
        push_u64(out, ca.len() as u64);
        let mut i: usize = 0;
        let ghost start = out@;
        while i < ca.len()
            invariant
                i <= ca@.len(),
                out@ == start + ca@.subrange(0, i as int),
            decreases ca@.len() - i,
        {
            out.push(ca[i]);
            proof {
                assert(out@ =~= start + ca@.subrange(0, i + 1));
            }
            i += 1;
        }
        assert(ca@.subrange(0, i as int) =~= ca@);
        save_root(&self.tree.prefix_tree, out);
        save_root(&self.tree.inner_tree, out);
        assert(out@ =~= old(out)@ + enc_engine(engine_view(*self), S as nat));
    }
}

// ---- reading ----

/// Once a list decoder fails, longer lists of the same kind fail too.
proof fn lemma_dec_u32s_fails(b: Seq<u8>, p: int, i: nat, k: nat)
    requires
        i <= k,
        dec_u32s(b, p, i) is None,
    ensures
        dec_u32s(b, p, k) is None,
    decreases k - i,
{
    if k > i {
        lemma_dec_u32s_fails(b, p, i, (k - 1) as nat);
    }
}

proof fn lemma_dec_leaf_list_fails(b: Seq<u8>, p: int, i: nat, k: nat)
    requires
        i <= k,
        dec_leaf_list(b, p, i) is None,
    ensures
        dec_leaf_list(b, p, k) is None,
    decreases k - i,
{
    if k > i {
        lemma_dec_leaf_list_fails(b, p, i, (k - 1) as nat);
    }
}

proof fn lemma_dec_groups_fails(b: Seq<u8>, p: int, i: nat, k: nat)
    requires
        i <= k,
        dec_groups(b, p, i) is None,
    ensures
        dec_groups(b, p, k) is None,
    decreases k - i,
{
    if k > i {
        lemma_dec_groups_fails(b, p, i, (k - 1) as nat);
    }
}

proof fn lemma_dec_l1s_fails(b: Seq<u8>, p: int, s: nat, i: nat, k: nat)
    requires
        i <= k,
        dec_l1s(b, p, s, i) is None,
    ensures
        dec_l1s(b, p, s, k) is None,
    decreases k - i,
{
    if k > i {
        lemma_dec_l1s_fails(b, p, s, i, (k - 1) as nat);
    }
}

fn read_u16(b: &[u8], p: usize) -> (res: Option<(u16, usize)>)
    ensures
        match dec_u16(b@, p as int) {
            Some((x, q)) => res matches Some((y, r)) && y == x && r == q,
            None => res is None,
        },
{
    if p <= b.len() && b.len() - p >= 2 {
        let x = b[p] as u16 + 256 * (b[p + 1] as u16);
        Some((x, p + 2))
    } else {
        None
    }
}

fn read_u32(b: &[u8], p: usize) -> (res: Option<(u32, usize)>)
    ensures
        match dec_u32(b@, p as int) {
            Some((x, q)) => res matches Some((y, r)) && y == x && r == q,
            None => res is None,
        },
{
    if p <= b.len() && b.len() - p >= 4 {
        let x = b[p] as u32 + 256 * (b[p + 1] as u32) + 65536 * (b[p + 2] as u32) + 16777216 * (b[p + 3] as u32);
        Some((x, p + 4))
    } else {
        None
    }
}

fn read_u64(b: &[u8], p: usize) -> (res: Option<(u64, usize)>)
    ensures
        match dec_u64(b@, p as int) {
            Some((x, q)) => res matches Some((y, r)) && y == x && r == q,
            None => res is None,
        },
{
    match read_u32(b, p) {
        Some((lo, q)) => match read_u32(b, q) {
            Some((hi, r)) => Some((lo as u64 + 0x1_0000_0000 * (hi as u64), r)),
            None => None,
        },
        None => None,
    }
}

fn read_u32s(b: &[u8], p: usize, k: usize) -> (res: Option<(Vec<u32>, usize)>)
    ensures
        match dec_u32s(b@, p as int, k as nat) {
            Some((x, q)) => res matches Some((v, r)) && v@ == x && r == q,
            None => res is None,
        },
{
    let mut out: Vec<u32> = Vec::new();
    let mut pos = p;
    let mut i: usize = 0;
    while i < k
        invariant
            i <= k,
            dec_u32s(b@, p as int, i as nat) == Some((out@, pos as int)),
        decreases k - i,
    {
        match read_u32(b, pos) {
            Some((x, q)) => {
                out.push(x);
                pos = q;
            },
            None => {
                proof {
                    lemma_dec_u32s_fails(b@, p as int, (i + 1) as nat, k as nat);
                }
                return None;
            },
        }
        i += 1;
    }
    Some((out, pos))
}

fn read_leaf(b: &[u8], p: usize) -> (res: Option<(TrieLeaf, usize)>)
    ensures
        match dec_leaf(b@, p as int) {
            Some((x, q)) => res matches Some((v, r)) && leaf_view(v) == x && r == q,
            None => res is None,
        },
{
    let (start_idx, p1) = match read_u32(b, p) {
        Some(v) => v,
        None => return None,
    };
    let (len, p2) = match read_u16(b, p1) {
        Some(v) => v,
        None => return None,
    };
    let (c, p3) = match read_u32(b, p2) {
        Some(v) => v,
        None => return None,
    };
    let (ids, p4) = match read_u32s(b, p3, c as usize) {
        Some(v) => v,
        None => return None,
    };
    Some((TrieLeaf { suffix: WordViaCharr { start_idx, len }, ids }, p4))
}

fn read_leaves(b: &[u8], p: usize) -> (res: Option<(TrieLeaves, usize)>)
    ensures
        match dec_leaves(b@, p as int) {
            Some((x, q)) => res matches Some((v, r)) && leaves_view(v) == x && r == q,
            None => res is None,
        },
{
    let (c, q) = match read_u32(b, p) {
        Some(v) => v,
        None => return None,
    };
    let k = c as usize;
    let mut out: Vec<TrieLeaf> = Vec::new();
    let mut pos = q;
    let mut i: usize = 0;
    proof {
        assert(out@.map_values(|l: TrieLeaf| leaf_view(l)) =~= Seq::<LeafV>::empty());
    }
    while i < k
        invariant
            i <= k,
            k == c,
            dec_u32(b@, p as int) == Some((c, q as int)),
            dec_leaf_list(b@, q as int, i as nat) == Some((out@.map_values(|l: TrieLeaf| leaf_view(l)), pos as int)),
        decreases k - i,
    {
        match read_leaf(b, pos) {
            Some((x, r)) => {
                let ghost before = out@;
                out.push(x);
                proof {
                    assert(out@.map_values(|l: TrieLeaf| leaf_view(l)) =~= before.map_values(|l: TrieLeaf| leaf_view(l)).push(leaf_view(x)));
                }
                pos = r;
            },
            None => {
                proof {
                    lemma_dec_leaf_list_fails(b@, q as int, (i + 1) as nat, k as nat);
                }
                return None;
            },
        }
        i += 1;
    }
    Some((TrieLeaves(out), pos))
}

fn read_l1<const S: usize>(b: &[u8], p: usize) -> (res: Option<(TrieNodeL1<S>, usize)>)
    ensures
        match dec_l1(b@, p as int, S as nat) {
            Some((x, q)) => res matches Some((v, r)) && l1_view(v) == x && r == q,
            None => res is None,
        },
{
    let (arr, q) = match read_u32s(b, p, S) {
        Some(v) => v,
        None => return None,
    };
    let mut children: Vec<TrieLeaves> = Vec::new();
    let mut pos = q;
    let mut i: usize = 0;
    proof {
        assert(children@.map_values(|t: TrieLeaves| leaves_view(t)) =~= Seq::<Seq<LeafV>>::empty());
    }
    while i < 26
        invariant
            i <= 26,
            dec_u32s(b@, p as int, S as nat) == Some((arr@, q as int)),
            dec_groups(b@, q as int, i as nat) == Some((children@.map_values(|t: TrieLeaves| leaves_view(t)), pos as int)),
        decreases 26 - i,
    {
        match read_leaves(b, pos) {
            Some((x, r)) => {
                let ghost before = children@;
                children.push(x);
                proof {
                    assert(children@.map_values(|t: TrieLeaves| leaves_view(t)) =~= before.map_values(|t: TrieLeaves| leaves_view(t)).push(leaves_view(x)));
                }
                pos = r;
            },
            None => {
                proof {
                    lemma_dec_groups_fails(b@, q as int, (i + 1) as nat, 26);
                }
                return None;
            },
        }
        i += 1;
    }
    Some((TrieNodeL1 { children, out: FixedHeap { arr } }, pos))
}

fn read_root<const S: usize>(b: &[u8], p: usize) -> (res: Option<(TrieNodeRoot<S>, usize)>)
    ensures
        match dec_root(b@, p as int, S as nat) {
            Some((x, q)) => res matches Some((v, r)) && root_view(v) == x && r == q,
            None => res is None,
        },
{
    let (arr, q) = match read_u32s(b, p, S) {
        Some(v) => v,
        None => return None,
    };
    let mut children: Vec<TrieNodeL1<S>> = Vec::new();
    let mut pos = q;
    let mut i: usize = 0;
    proof {
        assert(children@.map_values(|n: TrieNodeL1<S>| l1_view(n)) =~= Seq::<L1V>::empty());
    }
    while i < 26
        invariant
            i <= 26,
            dec_u32s(b@, p as int, S as nat) == Some((arr@, q as int)),
            dec_l1s(b@, q as int, S as nat, i as nat) == Some((children@.map_values(|n: TrieNodeL1<S>| l1_view(n)), pos as int)),
        decreases 26 - i,
    {
        match read_l1::<S>(b, pos) {
            Some((x, r)) => {
                let ghost before = children@;
                children.push(x);
                proof {
                    assert(children@.map_values(|n: TrieNodeL1<S>| l1_view(n)) =~= before.map_values(|n: TrieNodeL1<S>| l1_view(n)).push(l1_view(x)));
                }
                pos = r;
            },
            None => {
                proof {
                    lemma_dec_l1s_fails(b@, q as int, S as nat, (i + 1) as nat, 26);
                }
                return None;
            },
        }
        i += 1;
    }
    Some((TrieNodeRoot { children, out: FixedHeap { arr } }, pos))
}

// ---- checking what was read ----

/// Each value is below the next or the next is the largest `u32`, pair by pair.
proof fn lemma_finalized_from_adjacent(a: Seq<u32>)
    requires
        forall|k: int| 0 <= k < a.len() - 1 ==> #[trigger] a[k] < a[k + 1] || a[k + 1] == u32::MAX,
    ensures
        finalized(a),
{
    assert forall|i: int, j: int| 0 <= i < j < a.len() implies a[i] < a[j] || a[j] == u32::MAX by {
        lemma_finalized_step(a, i, j);
    }
}

proof fn lemma_finalized_step(a: Seq<u32>, i: int, j: int)
    requires
        forall|k: int| 0 <= k < a.len() - 1 ==> #[trigger] a[k] < a[k + 1] || a[k + 1] == u32::MAX,
        0 <= i < j < a.len(),
    ensures
        a[i] < a[j] || a[j] == u32::MAX,
    decreases j - i,
{
    if j > i + 1 {
        lemma_finalized_step(a, i, j - 1);
        assert(a[j - 1] < a[j] || a[j] == u32::MAX);
    } else {
        assert(a[i] < a[i + 1] || a[i + 1] == u32::MAX);
    }
}

proof fn lemma_strict_from_adjacent(a: Seq<u32>, i: int, j: int)
    requires
        forall|k: int| 0 <= k < a.len() - 1 ==> #[trigger] a[k] < a[k + 1],
        0 <= i < j < a.len(),
    ensures
        a[i] < a[j],
    decreases j - i,
{
    if j > i + 1 {
        lemma_strict_from_adjacent(a, i, j - 1);
        assert(a[j - 1] < a[j]);
    } else {
        assert(a[i] < a[i + 1]);
    }
}

fn check_heap(arr: &Vec<u32>) -> (res: bool)
    ensures
        res == finalized(arr@),
{
    let n = arr.len();
    if n == 0 {
        return true;
    }
    let mut k: usize = 0;
    while k < n - 1
        invariant
            n == arr@.len() > 0,
            k <= n - 1,
            forall|m: int| 0 <= m < k ==> #[trigger] arr@[m] < arr@[m + 1] || arr@[m + 1] == u32::MAX,
        decreases n - 1 - k,
    {
        if !(arr[k] < arr[k + 1] || arr[k + 1] == u32::MAX) {
            return false;
        }
        k += 1;
    }
    proof {
        lemma_finalized_from_adjacent(arr@);
    }
    true
}

fn check_ids(ids: &Vec<u32>) -> (res: bool)
    ensures
        res == strictly_sorted(ids@),
{
    let n = ids.len();
    if n == 0 {
        return true;
    }
    let mut k: usize = 0;
    while k < n - 1
        invariant
            n == ids@.len() > 0,
            k <= n - 1,
            forall|m: int| 0 <= m < k ==> #[trigger] ids@[m] < ids@[m + 1],
        decreases n - 1 - k,
    {
        if ids[k] >= ids[k + 1] {
            return false;
        }
        k += 1;
    }
    proof {
        assert forall|i: int, j: int| 0 <= i < j < ids@.len() implies ids@[i] < ids@[j] by {
            lemma_strict_from_adjacent(ids@, i, j);
        }
    }
    true
}

fn check_leaves(t: &TrieLeaves, ca: &Vec<u8>) -> (res: bool)
    ensures
        res == leavesv_wf(leaves_view(*t), ca@),
{
    let ghost v = leaves_view(*t);
    let n = ca.len() as u64;
    let mut i: usize = 0;
    while i < t.0.len()
        invariant
            v == leaves_view(*t),
            n == ca@.len(),
            i <= t.0@.len(),
            forall|k: int| 0 <= k < i ==> #[trigger] leafv_wf(v[k], ca@),
        decreases t.0@.len() - i,
    {
        let leaf = &t.0[i];
        proof {
            assert(v[i as int] == leaf_view(*leaf));
        }
        if leaf.suffix.start_idx as u64 + leaf.suffix.len as u64 > n {
            proof {
                assert(!leafv_wf(v[i as int], ca@));
            }
            return false;
        }
        if !check_ids(&leaf.ids) {
            proof {
                assert(!leafv_wf(v[i as int], ca@));
            }
            return false;
        }
        i += 1;
    }
    true
}

fn check_l1<const S: usize>(node: &TrieNodeL1<S>, ca: &Vec<u8>) -> (res: bool)
    ensures
        res == l1v_wf(l1_view(*node), ca@, S as nat),
{
    let ghost v = l1_view(*node);
    if node.out.arr.len() != S || !check_heap(&node.out.arr) || node.children.len() != 26 {
        return false;
    }
    let mut c: usize = 0;
    while c < 26
        invariant
            v == l1_view(*node),
            node.children@.len() == 26,
            c <= 26,
            forall|k: int| 0 <= k < c ==> #[trigger] leavesv_wf(v.1[k], ca@),
        decreases 26 - c,
    {
        if !check_leaves(&node.children[c], ca) {
            proof {
                assert(v.1[c as int] == leaves_view(node.children@[c as int]));
                assert(!leavesv_wf(v.1[c as int], ca@));
            }
            return false;
        }
        c += 1;
    }
    true
}

fn check_root<const S: usize>(root: &TrieNodeRoot<S>, ca: &Vec<u8>) -> (res: bool)
    ensures
        res == rootv_wf(root_view(*root), ca@, S as nat),
{
    let ghost v = root_view(*root);
    if root.out.arr.len() != S || !check_heap(&root.out.arr) || root.children.len() != 26 {
        return false;
    }
    let mut c: usize = 0;
    while c < 26
        invariant
            v == root_view(*root),
            root.children@.len() == 26,
            c <= 26,
            forall|k: int| 0 <= k < c ==> #[trigger] l1v_wf(v.1[k], ca@, S as nat),
        decreases 26 - c,
    {
        if !check_l1(&root.children[c], ca) {
            proof {
                assert(v.1[c as int] == l1_view(root.children@[c as int]));
                assert(!l1v_wf(v.1[c as int], ca@, S as nat));
            }
            return false;
        }
        c += 1;
    }
    true
}

impl<const S: usize> SearchEngine<S> {
    /// The engine saved in the bytes, where they hold one of this size whose tries are well
    /// formed; trailing bytes are ignored.
    pub fn try_load(bytes: &[u8]) -> (res: Option<Self>)
        ensures
            match dec_engine(bytes@, S as nat) {
                Some(ev) => if enginev_wf(ev, S as nat) {
                    res matches Some(e) && engine_view(e) == ev && e.wf()
                } else {
                    res is None
                },
                None => res is None,
            },
    {
        let n = bytes.len();
        if n < 4 {
            return None;
        }
        if !(bytes[0] == 77 && bytes[1] == 87 && bytes[2] == 83 && bytes[3] == 1) {
            proof {
                assert(bytes@.subrange(0, 4) != magic()) by {
                    if bytes@.subrange(0, 4) == magic() {
                        assert(bytes@.subrange(0, 4)[0] == bytes@[0]);
                        assert(bytes@.subrange(0, 4)[1] == bytes@[1]);
                        assert(bytes@.subrange(0, 4)[2] == bytes@[2]);
                        assert(bytes@.subrange(0, 4)[3] == bytes@[3]);
                    }
                }
            }
            return None;
        }
        proof {
            assert(bytes@.subrange(0, 4) =~= magic());
        }
        let (sz, p1) = match read_u32(bytes, 4) {
            Some(v) => v,
            None => return None,
        };
        if sz as usize != S {
            return None;
        }
        let (cal, p2) = match read_u64(bytes, p1) {
            Some(v) => v,
            None => return None,
        };
        if cal > (n - p2) as u64 {
            return None;
        }
        let end = p2 + cal as usize;
        let ca = vstd::slice::slice_to_vec(vstd::slice::slice_subrange(bytes, p2, end));
        let (prefix_tree, p3) = match read_root::<S>(bytes, end) {
            Some(v) => v,
            None => return None,
        };
        let (inner_tree, _p4) = match read_root::<S>(bytes, p3) {
            Some(v) => v,
            None => return None,
        };
        if !check_root(&prefix_tree, &ca) || !check_root(&inner_tree, &ca) {
            return None;
        }
        let e = SearchEngine { tree: CustomTrie { prefix_tree, inner_tree, char_array: ca } };
        proof {
            lemma_engine_wf_view(e);
        }
        Some(e)
    }
}

/// What `save` writes of a well-formed engine, `try_load` reads back as the same engine,
/// whatever follows the saved bytes.
pub proof fn law_save_then_load<const S: usize>(e: SearchEngine<S>, rest: Seq<u8>)
    requires
        e.wf(),
        encodable(engine_view(e), S as nat),
    ensures
        enginev_wf(engine_view(e), S as nat),
        dec_engine(enc_engine(engine_view(e), S as nat) + rest, S as nat) == Some(engine_view(e)),
{
    lemma_engine_wf_view(e);
    law_saved_engine_loads_back(engine_view(e), S as nat, rest);
}

} // verus!
