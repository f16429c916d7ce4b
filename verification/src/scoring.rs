//! How the link steps rank: each work's best source by quartile, and how strongly a citing
//! work ties its authors to a hit paper.
use vstd::prelude::*;

verus! {

/// A quartile as ranked: none known, or zero, counts as the weakest, 5.
pub open spec fn ranked_quartile(q: Option<u8>) -> int {
    match q {
        Some(v) => if v == 0 { 5 } else { v as int },
        None => 5,
    }
}

/// The best source of a work and its ranked quartile, over its sources with their quartiles
/// in the work's year: the first of the lowest ranked quartile; source 0 at rank 6 where
/// there is none.
pub open spec fn best_source(sources: Seq<(u32, Option<u8>)>) -> (u32, int)
    decreases sources.len(),
{
    if sources.len() == 0 {
        (0, 6)
    } else {
        let (bs, bq) = best_source(sources.drop_last());
        let q = ranked_quartile(sources.last().1);
        if q < bq {
            (sources.last().0, q)
        } else {
            (bs, bq)
        }
    }
}

/// The work's top source: the first of its sources with the best quartile that year, a
/// missing or zero quartile ranking last; 0 for a work without sources.
pub fn top_source(sources: &Vec<(u32, Option<u8>)>) -> (res: u32)
    ensures
        res == best_source(sources@).0,
{
    let mut best_q: u8 = 6;
    let mut best_s: u32 = 0;
    let mut i: usize = 0;
    while i < sources.len()
        invariant
            i <= sources@.len(),
            (best_s, best_q as int) == best_source(sources@.take(i as int)),
        decreases sources@.len() - i,
    {
        let (sid, qo) = sources[i];
        let q: u8 = match qo {
            Some(v) => if v == 0 { 5 } else { v },
            None => 5,
        };
        if q < best_q {
            best_s = sid;
            best_q = q;
        }
        proof {
            assert(sources@.take(i + 1).drop_last() =~= sources@.take(i as int));
        }
        i += 1;
    }
    proof {
        assert(sources@.take(i as int) =~= sources@);
    }
    best_s
}

/// A source's prestige from its h-index, median citations and best quartile.
pub open spec fn prestige(h: int, median: int, q: int) -> int {
    (if q < 5 { 5 - q } else { 0 }) * h * 2 + median * 3
}

/// How strongly a citing work ties to a hit paper: three per citation it has, five per point
/// of its top source's prestige, and one.
pub open spec fn citing_score_spec(cite_count: int, h: int, median: int, q: int) -> int {
    cite_count * 3 + prestige(h, median, q) * 5 + 1
}

/// The score of a citing work, from its citation count and the stats `([h, median], best
/// quartile)` of its top source.
pub fn citing_score(cite_count: u16, stats: ([u32; 2], u8)) -> (res: u64)
    requires
        prestige(stats.0[0] as int, stats.0[1] as int, stats.1 as int) <= u32::MAX,
    ensures
        res == citing_score_spec(cite_count as int, stats.0[0] as int, stats.0[1] as int, stats.1 as int),
        res == 3 * cite_count + 5 * ((5 - (if stats.1 < 5 { stats.1 as int } else { 5 })) * (2 * stats.0[0]) + 3
            * stats.0[1]) + 1,
{
    proof {
        law_citing_score_formula(cite_count as int, stats.0[0] as int, stats.0[1] as int, stats.1 as int);
    }
    let h = stats.0[0];
    let median = stats.0[1];
    let q = stats.1;
    let room: u32 = if q < 5 { 5 - q as u32 } else { 0 };
    proof {
        assert(room * h * 2 <= prestige(h as int, median as int, q as int));
        assert(room * h <= room * h * 2) by (nonlinear_arith);
        assert(0 <= room * h) by (nonlinear_arith);
    }
    let p: u32 = room * h * 2 + median * 3;
    cite_count as u64 * 3 + p as u64 * 5 + 1
}

/// One (score, hit paper) pair ranks above another: a higher score, or the same score and a
/// higher hit paper id.
pub open spec fn ranks_above(a: (u64, u32), b: (u64, u32)) -> bool {
    a.0 > b.0 || (a.0 == b.0 && a.1 > b.1)
}

/// The (score, hit paper) pairs of an author's links, direct and once removed, each link
/// given as (hit paper, score).
pub open spec fn link_pairs(direct: Seq<(u32, u64)>, once: Seq<(u32, u64)>) -> Set<(u64, u32)> {
    (direct + once).map_values(|e: (u32, u64)| (e.1, e.0)).to_set()
}

/// The pair is one of the `limit` highest ranked of the pairs.
pub open spec fn in_top(p: (u64, u32), pairs: Set<(u64, u32)>, limit: int) -> bool {
    pairs.contains(p) && pairs.filter(|q: (u64, u32)| ranks_above(q, p)).len() < limit
}

/// Some pair of the hit paper is one of the `limit` highest ranked.
pub open spec fn has_top(h: u32, pairs: Set<(u64, u32)>, limit: int) -> bool {
    exists|s: u64| #[trigger] in_top((s, h), pairs, limit)
}

/// The hit papers of the links that keep a place among the top pairs.
pub open spec fn kept_hits(links: Seq<(u32, u64)>, pairs: Set<(u64, u32)>, limit: int) -> Set<u32> {
    Set::new(|h: u32| exists|i: int| 0 <= i < links.len() && #[trigger] links[i].0 == h && has_top(h, pairs, limit))
}

/// How many pairs of the list rank above `p`.
pub open spec fn count_above(l: Seq<(u64, u32)>, p: (u64, u32)) -> nat
    decreases l.len(),
{
    if l.len() == 0 {
        0
    } else {
        count_above(l.drop_last(), p) + if ranks_above(l.last(), p) { 1nat } else { 0nat }
    }
}

proof fn lemma_count_above(l: Seq<(u64, u32)>, p: (u64, u32))
    requires
        l.no_duplicates(),
    ensures
        count_above(l, p) == l.to_set().filter(|q: (u64, u32)| ranks_above(q, p)).len(),
    decreases l.len(),
{
    broadcast use vstd::seq_lib::seq_to_set_is_finite;

    let f = |q: (u64, u32)| ranks_above(q, p);
    if l.len() == 0 {
        assert(l.to_set().filter(f) =~= Set::<(u64, u32)>::empty());
    } else {
        let init = l.drop_last();
        let x = l.last();
        assert(init.no_duplicates()) by {
            assert forall|a: int, b: int| 0 <= a < init.len() && 0 <= b < init.len() && a != b implies init[a] != init[b] by {
                assert(init[a] == l[a] && init[b] == l[b]);
            }
        }
        lemma_count_above(init, p);
        assert(l =~= init.push(x));
        crate::ledger::lemma_to_set_push(init, x);
        assert(!init.to_set().contains(x)) by {
            if init.to_set().contains(x) {
                let i = choose|i: int| 0 <= i < init.len() && init[i] == x;
                assert(l[i] == l[l.len() - 1]);
            }
        }
        if f(x) {
            assert(l.to_set().filter(f) =~= init.to_set().filter(f).insert(x));
        } else {
            assert(l.to_set().filter(f) =~= init.to_set().filter(f));
        }
    }
}

/// Whether the list holds the pair.
fn holds_pair(l: &Vec<(u64, u32)>, p: (u64, u32)) -> (res: bool)
    ensures
        res == l@.contains(p),
{
    let mut i: usize = 0;
    while i < l.len()
        invariant
            i <= l@.len(),
            forall|k: int| 0 <= k < i ==> l@[k] != p,
        decreases l@.len() - i,
    {
        if l[i].0 == p.0 && l[i].1 == p.1 {
            return true;
        }
        i += 1;
    }
    false
}

/// How many pairs of the list rank above `p`.
fn count_above_exec(l: &Vec<(u64, u32)>, p: (u64, u32)) -> (res: usize)
    ensures
        res == count_above(l@, p),
{
    let mut n: usize = 0;
    let mut i: usize = 0;
    while i < l.len()
        invariant
            i <= l@.len(),
            n == count_above(l@.take(i as int), p),
            n <= i,
        decreases l@.len() - i,
    {
        proof {
            assert(l@.take(i + 1).drop_last() =~= l@.take(i as int));
        }
        if l[i].0 > p.0 || (l[i].0 == p.0 && l[i].1 > p.1) {
            n += 1;
        }
        i += 1;
    }
    proof {
        assert(l@.take(i as int) =~= l@);
    }
    n
}

/// The distinct (score, hit paper) pairs of the links, in the order first met.
fn distinct_pairs(direct: &Vec<(u32, u64)>, once: &Vec<(u32, u64)>) -> (res: Vec<(u64, u32)>)
    requires
        direct@.len() + once@.len() <= usize::MAX,
    ensures
        res@.no_duplicates(),
        res@.to_set() == link_pairs(direct@, once@),
{
    let ghost all = direct@ + once@;
    let ghost mapped = all.map_values(|e: (u32, u64)| (e.1, e.0));
    let mut out: Vec<(u64, u32)> = Vec::new();
    let n1 = direct.len();
    let n = direct.len() + once.len();
    let mut i: usize = 0;
    proof {
        assert(out@.to_set() =~= mapped.take(0).to_set());
    }
    while i < n
        invariant
            n1 == direct@.len(),
            n == all.len(),
            all == direct@ + once@,
            mapped == all.map_values(|e: (u32, u64)| (e.1, e.0)),
            i <= n,
            out@.no_duplicates(),
            out@.to_set() == mapped.take(i as int).to_set(),
        decreases n - i,
    {
        let e = if i < n1 { direct[i] } else { once[i - n1] };
        let p = (e.1, e.0);
        proof {
            assert(e == all[i as int]);
            assert(p == mapped[i as int]);
            assert(mapped.take(i + 1) =~= mapped.take(i as int).push(p));
            crate::ledger::lemma_to_set_push(mapped.take(i as int), p);
        }
        if !holds_pair(&out, p) {
            let ghost before = out@;
            out.push(p);
            proof {
                crate::ledger::lemma_to_set_push(before, p);
                assert forall|a: int, b: int| 0 <= a < out@.len() && 0 <= b < out@.len() && a != b implies out@[a] != out@[b] by {
                    if a < before.len() && b < before.len() {
                        assert(out@[a] == before[a] && out@[b] == before[b]);
                    } else if a < before.len() {
                        assert(before.contains(before[a]));
                    } else {
                        assert(before.contains(before[b]));
                    }
                }
            }
        } else {
            proof {
                assert(out@.to_set().insert(p) =~= out@.to_set());
            }
        }
        i += 1;
    }
    proof {
        assert(mapped.take(n as int) =~= mapped);
    }
    out
}

/// The hit papers of the links that the list of kept ones holds, ascending.
fn pick_kept(links: &Vec<(u32, u64)>, kept: &Vec<u32>, Ghost(ps): Ghost<Set<(u64, u32)>>, limit: usize) -> (res: Vec<u32>)
    requires
        forall|h: u32| kept@.contains(h) <==> has_top(h, ps, limit as int),
    ensures
        crate::merging::strictly_sorted(res@),
        res@.to_set() == kept_hits(links@, ps, limit as int),
{
    let mut hs: Vec<u32> = Vec::new();
    let mut i: usize = 0;
    while i < links.len()
        invariant
            i <= links@.len(),
            forall|h: u32| kept@.contains(h) <==> has_top(h, ps, limit as int),
            forall|h: u32| hs@.contains(h) <==> (exists|j: int| 0 <= j < i && #[trigger] links@[j].0 == h && kept@.contains(h)),
        decreases links@.len() - i,
    {
        let h = links[i].0;
        let ghost before = hs@;
        if crate::building::vec_has(kept, h) {
            hs.push(h);
        }
        proof {
            assert forall|x: u32| hs@.contains(x) <==> (exists|j: int| 0 <= j < i + 1 && #[trigger] links@[j].0 == x && kept@.contains(x)) by {
                if hs@.contains(x) {
                    let k = choose|k: int| 0 <= k < hs@.len() && hs@[k] == x;
                    if k < before.len() {
                        assert(before[k] == x);
                        assert(before.contains(x));
                    } else {
                        assert(links@[i as int].0 == x);
                    }
                }
                if exists|j: int| 0 <= j < i + 1 && #[trigger] links@[j].0 == x && kept@.contains(x) {
                    let j = choose|j: int| 0 <= j < i + 1 && #[trigger] links@[j].0 == x && kept@.contains(x);
                    if j < i {
                        assert(before.contains(x));
                        let k = choose|k: int| 0 <= k < before.len() && before[k] == x;
                        assert(hs@[k] == x);
                    } else {
                        assert(hs@[hs@.len() - 1] == x);
                    }
                }
            }
        }
        i += 1;
    }
    let res = crate::building::sorted_ids(&hs);
    proof {
        assert(res@.to_set() =~= kept_hits(links@, ps, limit as int)) by {
            assert forall|h: u32| res@.to_set().contains(h) <==> kept_hits(links@, ps, limit as int).contains(h) by {
                assert(res@.to_set().contains(h) <==> hs@.to_set().contains(h));
            }
        }
    }
    res
}

/// The hit papers of an author's links that keep a place among the `limit` highest ranked
/// (score, hit paper) pairs of both kinds, a repeated pair counted once: those of the direct
/// links and those of the once-removed ones, each ascending.
pub fn top_hits(direct: &Vec<(u32, u64)>, once: &Vec<(u32, u64)>, limit: usize) -> (res: (Vec<u32>, Vec<u32>))
    requires
        direct@.len() + once@.len() <= usize::MAX,
    ensures
        crate::merging::strictly_sorted(res.0@),
        crate::merging::strictly_sorted(res.1@),
        res.0@.to_set() == kept_hits(direct@, link_pairs(direct@, once@), limit as int),
        res.1@.to_set() == kept_hits(once@, link_pairs(direct@, once@), limit as int),
{
    let pairs = distinct_pairs(direct, once);
    let ghost ps = link_pairs(direct@, once@);
    let mut kept: Vec<u32> = Vec::new();
    let mut i: usize = 0;
    while i < pairs.len()
        invariant
            i <= pairs@.len(),
            pairs@.no_duplicates(),
            pairs@.to_set() == ps,
            forall|h: u32| kept@.contains(h) ==> has_top(h, ps, limit as int),
            forall|j: int| 0 <= j < i && in_top(pairs@[j], ps, limit as int) ==> kept@.contains(#[trigger] pairs@[j].1),
        decreases pairs@.len() - i,
    {
        let p = pairs[i];
        let c = count_above_exec(&pairs, p);
        proof {
            lemma_count_above(pairs@, p);
            assert(pairs@.to_set().contains(p)) by {
                assert(pairs@[i as int] == p);
            }
        }
        if c < limit {
            let ghost before = kept@;
            kept.push(p.1);
            proof {
                assert(in_top((p.0, p.1), ps, limit as int));
                assert forall|h: u32| kept@.contains(h) implies has_top(h, ps, limit as int) by {
                    let k = choose|k: int| 0 <= k < kept@.len() && kept@[k] == h;
                    if k < before.len() {
                        assert(before[k] == h);
                        assert(before.contains(h));
                    } else {
                        assert(h == p.1);
                        assert(in_top((p.0, h), ps, limit as int));
                    }
                }
                assert forall|j: int| 0 <= j < i + 1 && in_top(pairs@[j], ps, limit as int) implies kept@.contains(#[trigger] pairs@[j].1) by {
                    if j < i {
                        assert(before.contains(pairs@[j].1));
                        let k = choose|k: int| 0 <= k < before.len() && before[k] == pairs@[j].1;
                        assert(kept@[k] == before[k]);
                    } else {
                        assert(kept@[before.len() as int] == p.1);
                    }
                }
            }
        } else {
            proof {
                assert(!in_top(p, ps, limit as int));
            }
        }
        i += 1;
    }
    proof {
        assert(forall|h: u32| kept@.contains(h) ==> has_top(h, ps, limit as int));
        assert forall|h: u32| has_top(h, ps, limit as int) implies kept@.contains(h) by {
            if has_top(h, ps, limit as int) {
                let s = choose|s: u64| #[trigger] in_top((s, h), ps, limit as int);
                assert(pairs@.to_set().contains((s, h)));
                let j = choose|j: int| 0 <= j < pairs@.len() && pairs@[j] == (s, h);
                assert(in_top(pairs@[j], ps, limit as int));
                assert(j < i);
                assert(kept@.contains(pairs@[j].1));
            }
        }
    }
    let d = pick_kept(direct, &kept, Ghost(ps), limit);
    let o = pick_kept(once, &kept, Ghost(ps), limit);
    (d, o)
}

/// A score map after one more score for `a`: it keeps the higher of the two.
pub open spec fn bump(m: Map<u32, u64>, a: u32, s: u64) -> Map<u32, u64> {
    if m.dom().contains(a) && m[a] >= s {
        m
    } else {
        m.insert(a, s)
    }
}

/// The direct scores after one citing work of score `s` with authors `ras`; the hit paper's
/// own authors `hp_as` are passed over.
pub open spec fn add_direct(d: Map<u32, u64>, ras: Seq<u32>, hp_as: Seq<u32>, s: u64) -> Map<u32, u64>
    decreases ras.len(),
{
    if ras.len() == 0 {
        d
    } else {
        let d0 = add_direct(d, ras.drop_last(), hp_as, s);
        if hp_as.contains(ras.last()) {
            d0
        } else {
            bump(d0, ras.last(), s)
        }
    }
}

/// The once-removed scores after one work of score `s` with authors `ras2`, cited by a
/// citing work with authors `ras`: an author of the hit paper or of the citing work, or one
/// already linked directly, is passed over.
pub open spec fn add_once(
    o: Map<u32, u64>,
    d: Map<u32, u64>,
    ras2: Seq<u32>,
    hp_as: Seq<u32>,
    ras: Seq<u32>,
    s: u64,
) -> Map<u32, u64>
    decreases ras2.len(),
{
    if ras2.len() == 0 {
        o
    } else {
        let o0 = add_once(o, d, ras2.drop_last(), hp_as, ras, s);
        let a = ras2.last();
        if hp_as.contains(a) || ras.contains(a) || d.dom().contains(a) {
            o0
        } else {
            bump(o0, a, s)
        }
    }
}

/// The once-removed scores after the works that one citing work cites.
pub open spec fn add_once_refs(
    o: Map<u32, u64>,
    d: Map<u32, u64>,
    refs2: Seq<u32>,
    authors: Seq<Seq<u32>>,
    scores: Seq<u64>,
    hp_as: Seq<u32>,
    ras: Seq<u32>,
) -> Map<u32, u64>
    decreases refs2.len(),
{
    if refs2.len() == 0 {
        o
    } else {
        let r2 = refs2.last();
        add_once(add_once_refs(o, d, refs2.drop_last(), authors, scores, hp_as, ras), d, authors[r2 as int], hp_as, ras, scores[r2 as int])
    }
}

/// The direct and once-removed scores of the authors linked to a hit paper with authors
/// `hp_as` through the citing works `rs`, taken in order: each citing work's authors first
/// get three times its score directly, then the authors of the works it cites get theirs
/// once removed.
pub open spec fn hp_links(
    rs: Seq<u32>,
    refs: Seq<Seq<u32>>,
    authors: Seq<Seq<u32>>,
    scores: Seq<u64>,
    hp_as: Seq<u32>,
) -> (Map<u32, u64>, Map<u32, u64>)
    decreases rs.len(),
{
    if rs.len() == 0 {
        (Map::empty(), Map::empty())
    } else {
        let (d, o) = hp_links(rs.drop_last(), refs, authors, scores, hp_as);
        let r = rs.last() as int;
        let d2 = add_direct(d, authors[r], hp_as, (scores[r] * 3) as u64);
        (d2, add_once_refs(o, d2, refs[r], authors, scores, hp_as, authors[r]))
    }
}

/// An association list read as a map, a later entry for a key winning.
pub open spec fn assoc(v: Seq<(u32, u64)>) -> Map<u32, u64>
    decreases v.len(),
{
    if v.len() == 0 {
        Map::empty()
    } else {
        assoc(v.drop_last()).insert(v.last().0, v.last().1)
    }
}

/// No key occurs twice.
pub open spec fn keys_distinct(v: Seq<(u32, u64)>) -> bool {
    forall|i: int, j: int| 0 <= i < j < v.len() ==> v[i].0 != v[j].0
}

proof fn lemma_assoc_at(v: Seq<(u32, u64)>, k: u32)
    requires
        keys_distinct(v),
    ensures
        assoc(v).dom().contains(k) <==> exists|i: int| 0 <= i < v.len() && v[i].0 == k,
        forall|i: int| 0 <= i < v.len() && v[i].0 == k ==> assoc(v)[k] == v[i].1,
    decreases v.len(),
{
    if v.len() > 0 {
        let init = v.drop_last();
        lemma_assoc_at(init, k);
        assert forall|i: int| 0 <= i < v.len() && v[i].0 == k implies assoc(v)[k] == v[i].1 by {
            if i < v.len() - 1 {
                assert(init[i] == v[i]);
            }
        }
        if exists|i: int| 0 <= i < v.len() && v[i].0 == k {
            let i = choose|i: int| 0 <= i < v.len() && v[i].0 == k;
            if i < v.len() - 1 {
                assert(init[i] == v[i]);
            }
        }
        if assoc(init).dom().contains(k) {
            let i = choose|i: int| 0 <= i < init.len() && init[i].0 == k;
            assert(v[i] == init[i]);
        }
    }
}

proof fn lemma_assoc_update(v: Seq<(u32, u64)>, i: int, s: u64)
    requires
        keys_distinct(v),
        0 <= i < v.len(),
    ensures
        assoc(v.update(i, (v[i].0, s))) == assoc(v).insert(v[i].0, s),
    decreases v.len(),
{
    let w = v.update(i, (v[i].0, s));
    let init = v.drop_last();
    if i == v.len() - 1 {
        assert(w.drop_last() =~= init);
        assert(assoc(w) =~= assoc(v).insert(v[i].0, s));
    } else {
        assert(w.drop_last() =~= init.update(i, (init[i].0, s)));
        lemma_assoc_update(init, i, s);
        assert(v.last().0 != v[i].0);
        assert(assoc(w) =~= assoc(v).insert(v[i].0, s));
    }
}

/// Bumps the entry of `a` in the association list.
fn bump_assoc(v: &mut Vec<(u32, u64)>, a: u32, s: u64)
    requires
        keys_distinct(old(v)@),
    ensures
        keys_distinct(final(v)@),
        assoc(final(v)@) == bump(assoc(old(v)@), a, s),
{
    let mut i: usize = 0;
    while i < v.len()
        invariant
            i <= v@.len(),
            v@ == old(v)@,
            keys_distinct(v@),
            forall|k: int| 0 <= k < i ==> v@[k].0 != a,
        decreases v@.len() - i,
    {
        if v[i].0 == a {
            proof {
                lemma_assoc_at(v@, a);
            }
            if v[i].1 < s {
                proof {
                    lemma_assoc_update(v@, i as int, s);
                }
                v.set(i, (a, s));
                proof {
                    assert forall|x: int, y: int| 0 <= x < y < v@.len() implies v@[x].0 != v@[y].0 by {
                        assert(v@[x].0 == old(v)@[x].0 && v@[y].0 == old(v)@[y].0);
                    }
                }
            }
            return;
        }
        i += 1;
    }
    proof {
        lemma_assoc_at(v@, a);
    }
    let ghost before = v@;
    v.push((a, s));
    proof {
        assert(v@.drop_last() =~= before);
        assert forall|x: int, y: int| 0 <= x < y < v@.len() implies v@[x].0 != v@[y].0 by {
            if y == v@.len() - 1 {
                assert(before[x].0 != a);
            } else {
                assert(v@[x] == before[x] && v@[y] == before[y]);
            }
        }
    }
}

/// The lists of a graph as sequences.
pub open spec fn lists_view(ls: Seq<Vec<u32>>) -> Seq<Seq<u32>> {
    ls.map_values(|v: Vec<u32>| v@)
}

/// Every listed work is a work of the graph, and every score leaves room to be tripled.
pub open spec fn graph_ready(refs: Seq<Vec<u32>>, authors: Seq<Vec<u32>>, scores: Seq<u64>) -> bool {
    &&& authors.len() == refs.len()
    &&& scores.len() == refs.len()
    &&& forall|w: int, k: int| 0 <= w < refs.len() && 0 <= k < refs[w]@.len() ==> (#[trigger] refs[w]@[k]) < refs.len()
    &&& forall|w: int| 0 <= w < scores.len() ==> #[trigger] scores[w] <= u64::MAX / 3
}

/// The authors linked to hit paper `hp` through the works that cite it (`refs[hp]`) and the
/// works those cite, with their direct and once-removed scores, as association lists.
pub fn hit_paper_links(hp: usize, refs: &Vec<Vec<u32>>, authors: &Vec<Vec<u32>>, scores: &Vec<u64>) -> (res: (
    Vec<(u32, u64)>,
    Vec<(u32, u64)>,
))
    requires
        graph_ready(refs@, authors@, scores@),
        hp < refs@.len(),
    ensures
        keys_distinct(res.0@),
        keys_distinct(res.1@),
        (assoc(res.0@), assoc(res.1@)) == hp_links(refs@[hp as int]@, lists_view(refs@), lists_view(authors@), scores@, authors@[hp as int]@),
{
    let ghost rv = lists_view(refs@);
    let ghost av = lists_view(authors@);
    let hp_as = &authors[hp];
    let rs = &refs[hp];
    let mut d: Vec<(u32, u64)> = Vec::new();
    let mut o: Vec<(u32, u64)> = Vec::new();
    let mut k: usize = 0;
    proof {
        assert(assoc(d@) =~= Map::<u32, u64>::empty());
        assert(rs@.take(0) =~= Seq::<u32>::empty());
    }
    while k < rs.len()
        invariant
            graph_ready(refs@, authors@, scores@),
            hp < refs@.len(),
            *rs == refs@[hp as int],
            *hp_as == authors@[hp as int],
            rv == lists_view(refs@),
            av == lists_view(authors@),
            k <= rs@.len(),
            keys_distinct(d@),
            keys_distinct(o@),
            (assoc(d@), assoc(o@)) == hp_links(rs@.take(k as int), rv, av, scores@, hp_as@),
        decreases rs@.len() - k,
    {
        let r = rs[k] as usize;
        proof {
            assert(rs@.take(k + 1).drop_last() =~= rs@.take(k as int));
            assert(rs@.take(k + 1).last() == rs@[k as int]);
            assert(refs@[hp as int]@[k as int] < refs@.len());
        }
        let ras = &authors[r];
        let sc = scores[r] * 3;
        let ghost d_start = assoc(d@);
        let mut j: usize = 0;
        proof {
            assert(ras@.take(0) =~= Seq::<u32>::empty());
        }
        while j < ras.len()
            invariant
                j <= ras@.len(),
                keys_distinct(d@),
                assoc(d@) == add_direct(d_start, ras@.take(j as int), hp_as@, sc),
            decreases ras@.len() - j,
        {
            let a = ras[j];
            proof {
                assert(ras@.take(j + 1).drop_last() =~= ras@.take(j as int));
            }
            if !crate::building::vec_has(hp_as, a) {
                bump_assoc(&mut d, a, sc);
            }
            j += 1;
        }
        proof {
            assert(ras@.take(j as int) =~= ras@);
            assert(av[r as int] == ras@);
        }
        let ghost d2 = assoc(d@);
        let rs2 = &refs[r];
        let ghost o_start = assoc(o@);
        let mut m: usize = 0;
        proof {
            assert(rs2@.take(0) =~= Seq::<u32>::empty());
        }
        while m < rs2.len()
            invariant
                graph_ready(refs@, authors@, scores@),
                r < refs@.len(),
                *rs2 == refs@[r as int],
                av == lists_view(authors@),
                m <= rs2@.len(),
                keys_distinct(d@),
                keys_distinct(o@),
                assoc(d@) == d2,
                assoc(o@) == add_once_refs(o_start, d2, rs2@.take(m as int), av, scores@, hp_as@, ras@),
            decreases rs2@.len() - m,
        {
            let r2 = rs2[m] as usize;
            proof {
                assert(refs@[r as int]@[m as int] < refs@.len());
                assert(rs2@.take(m + 1).drop_last() =~= rs2@.take(m as int));
                assert(rs2@.take(m + 1).last() == rs2@[m as int]);
            }
            let ras2 = &authors[r2];
            let s2 = scores[r2];
            let ghost o_mid = assoc(o@);
            let mut t: usize = 0;
            proof {
                assert(ras2@.take(0) =~= Seq::<u32>::empty());
            }
            while t < ras2.len()
                invariant
                    t <= ras2@.len(),
                    keys_distinct(d@),
                    keys_distinct(o@),
                    assoc(d@) == d2,
                    assoc(o@) == add_once(o_mid, d2, ras2@.take(t as int), hp_as@, ras@, s2),
                decreases ras2@.len() - t,
            {
                let a = ras2[t];
                proof {
                    assert(ras2@.take(t + 1).drop_last() =~= ras2@.take(t as int));
                }
                let linked = holds_assoc(&d, a);
                if !crate::building::vec_has(hp_as, a) && !crate::building::vec_has(ras, a) && !linked {
                    bump_assoc(&mut o, a, s2);
                }
                t += 1;
            }
            proof {
                assert(ras2@.take(t as int) =~= ras2@);
                assert(av[r2 as int] == ras2@);
            }
            m += 1;
        }
        proof {
            assert(rs2@.take(m as int) =~= rs2@);
            assert(rv[r as int] == rs2@);
        }
        k += 1;
    }
    proof {
        assert(rs@.take(k as int) =~= rs@);
    }
    (d, o)
}

/// Whether the association list has an entry for `a`.
fn holds_assoc(v: &Vec<(u32, u64)>, a: u32) -> (res: bool)
    requires
        keys_distinct(v@),
    ensures
        res == assoc(v@).dom().contains(a),
{
    proof {
        lemma_assoc_at(v@, a);
    }
    let mut i: usize = 0;
    while i < v.len()
        invariant
            i <= v@.len(),
            keys_distinct(v@),
            forall|k: int| 0 <= k < i ==> v@[k].0 != a,
        decreases v@.len() - i,
    {
        if v[i].0 == a {
            proof {
                lemma_assoc_at(v@, a);
            }
            return true;
        }
        i += 1;
    }
    false
}

/// The entries of an association list for author `a`, each as (hit paper `hid`, score).
pub open spec fn for_author(l: Seq<(u32, u64)>, hid: u32, a: int) -> Seq<(u32, u64)>
    decreases l.len(),
{
    if l.len() == 0 {
        Seq::empty()
    } else {
        for_author(l.drop_last(), hid, a) + if l.last().0 == a {
            seq![(hid, l.last().1)]
        } else {
            Seq::<(u32, u64)>::empty()
        }
    }
}

proof fn lemma_for_author(l: Seq<(u32, u64)>, hid: u32, a: u32)
    requires
        keys_distinct(l),
    ensures
        for_author(l, hid, a as int) == (if assoc(l).dom().contains(a) {
            seq![(hid, assoc(l)[a])]
        } else {
            Seq::<(u32, u64)>::empty()
        }),
    decreases l.len(),
{
    if l.len() > 0 {
        let init = l.drop_last();
        assert(keys_distinct(init)) by {
            assert forall|i: int, j: int| 0 <= i < j < init.len() implies init[i].0 != init[j].0 by {
                assert(init[i] == l[i] && init[j] == l[j]);
            }
        }
        lemma_for_author(init, hid, a);
        if l.last().0 == a {
            lemma_assoc_at(init, a);
            assert(!assoc(init).dom().contains(a)) by {
                if assoc(init).dom().contains(a) {
                    let i = choose|i: int| 0 <= i < init.len() && init[i].0 == a;
                    assert(l[i].0 == l[l.len() - 1].0);
                }
            }
            assert(for_author(l, hid, a as int) =~= seq![(hid, l.last().1)]);
        } else {
            assert(for_author(l, hid, a as int) =~= for_author(init, hid, a as int));
        }
    }
}

/// The links of author `a` over the hit papers `hits` (each as (work, hit paper id)), in
/// order: (hit paper id, score) for each hit paper that links the author, directly or, with
/// `once`, once removed.
pub open spec fn author_links(
    hits: Seq<(usize, u32)>,
    refs: Seq<Vec<u32>>,
    authors: Seq<Vec<u32>>,
    scores: Seq<u64>,
    a: int,
    once: bool,
) -> Seq<(u32, u64)>
    decreases hits.len(),
{
    if hits.len() == 0 {
        Seq::empty()
    } else {
        let (hp, hid) = hits.last();
        let ls = hp_links(refs[hp as int]@, lists_view(refs), lists_view(authors), scores, authors[hp as int]@);
        let m = if once { ls.1 } else { ls.0 };
        author_links(hits.drop_last(), refs, authors, scores, a, once) + if a == a as u32 && m.dom().contains(a as u32) {
            seq![(hid, m[a as u32])]
        } else {
            Seq::<(u32, u64)>::empty()
        }
    }
}

/// Every author id is below `n`.
pub open spec fn authors_below(authors: Seq<Vec<u32>>, n: int) -> bool {
    forall|w: int, k: int| 0 <= w < authors.len() && 0 <= k < authors[w]@.len() ==> (#[trigger] authors[w]@[k]) < n
}

proof fn lemma_add_direct_below(d: Map<u32, u64>, ras: Seq<u32>, hp_as: Seq<u32>, s: u64, n: int)
    requires
        forall|a: u32| d.dom().contains(a) ==> a < n,
        forall|k: int| 0 <= k < ras.len() ==> #[trigger] ras[k] < n,
    ensures
        forall|a: u32| add_direct(d, ras, hp_as, s).dom().contains(a) ==> a < n,
    decreases ras.len(),
{
    if ras.len() > 0 {
        let init = ras.drop_last();
        assert forall|k: int| 0 <= k < init.len() implies #[trigger] init[k] < n by {
            assert(init[k] == ras[k]);
        }
        lemma_add_direct_below(d, init, hp_as, s, n);
        assert(ras[ras.len() - 1] < n);
        let d0 = add_direct(d, init, hp_as, s);
        assert forall|a: u32| add_direct(d, ras, hp_as, s).dom().contains(a) implies a < n by {
            if a != ras.last() {
                assert(d0.dom().contains(a));
            }
        }
    }
}

/// Adds the entries of one hit paper's association list to the authors' lists.
fn spread_links(by_author: &mut Vec<Vec<(u32, u64)>>, l: &Vec<(u32, u64)>, hid: u32)
    requires
        forall|k: int| 0 <= k < l@.len() ==> (#[trigger] l@[k]).0 < old(by_author)@.len(),
    ensures
        final(by_author)@.len() == old(by_author)@.len(),
        forall|b: int| 0 <= b < final(by_author)@.len() ==> (#[trigger] final(by_author)@[b])@ == old(by_author)@[b]@ + for_author(l@, hid, b),
{
    let n = by_author.len();
    let mut q: usize = 0;
    while q < l.len()
        invariant
            q <= l@.len(),
            n == old(by_author)@.len(),
            by_author@.len() == n,
            forall|k: int| 0 <= k < l@.len() ==> (#[trigger] l@[k]).0 < n,
            forall|b: int| 0 <= b < n ==> (#[trigger] by_author@[b])@ == old(by_author)@[b]@ + for_author(l@.take(q as int), hid, b),
        decreases l@.len() - q,
    {
        let (a, sc) = l[q];
        let ghost before = by_author@;
        let mut tmp: Vec<(u32, u64)> = Vec::new();
        by_author.set_and_swap(a as usize, &mut tmp);
        tmp.push((hid, sc));
        by_author.set_and_swap(a as usize, &mut tmp);
        proof {
            assert(l@.take(q + 1).drop_last() =~= l@.take(q as int));
            assert(l@.take(q + 1).last() == (a, sc));
            assert forall|b: int| 0 <= b < n implies (#[trigger] by_author@[b])@ == old(by_author)@[b]@ + for_author(l@.take(q + 1), hid, b) by {
                if b == a as int {
                    assert(by_author@[b]@ =~= before[b]@.push((hid, sc)));
                    assert(old(by_author)@[b]@ + for_author(l@.take(q + 1), hid, b) =~= (old(by_author)@[b]@ + for_author(l@.take(q as int), hid, b)).push((hid, sc)));
                } else {
                    assert(by_author@[b] == before[b]);
                    assert(b != a as int);
                    assert(for_author(l@.take(q + 1), hid, b) =~= for_author(l@.take(q as int), hid, b));
                }
            }
        }
        q += 1;
    }
    proof {
        assert(l@.take(q as int) =~= l@);
    }
}

/// For each of `n_authors` authors, the hit papers that the author's links place among the
/// author's `limit` highest ranked (score, hit paper) pairs: those linked directly and those
/// linked once removed, each ascending.
pub fn author_citing_hits(
    n_authors: usize,
    hits: &Vec<(usize, u32)>,
    refs: &Vec<Vec<u32>>,
    authors: &Vec<Vec<u32>>,
    scores: &Vec<u64>,
    limit: usize,
) -> (res: Vec<(Vec<u32>, Vec<u32>)>)
    requires
        graph_ready(refs@, authors@, scores@),
        authors_below(authors@, n_authors as int),
        forall|i: int| 0 <= i < hits@.len() ==> (#[trigger] hits@[i]).0 < refs@.len(),
        2 * hits@.len() <= usize::MAX,
        n_authors <= 0x1_0000_0000,
    ensures
        res@.len() == n_authors,
        forall|a: int| 0 <= a < n_authors ==> {
            let dl = author_links(hits@, refs@, authors@, scores@, a, false);
            let ol = author_links(hits@, refs@, authors@, scores@, a, true);
            &&& crate::merging::strictly_sorted((#[trigger] res@[a]).0@)
            &&& crate::merging::strictly_sorted(res@[a].1@)
            &&& res@[a].0@.to_set() == kept_hits(dl, link_pairs(dl, ol), limit as int)
            &&& res@[a].1@.to_set() == kept_hits(ol, link_pairs(dl, ol), limit as int)
        },
{
    let mut direct_by: Vec<Vec<(u32, u64)>> = Vec::new();
    let mut once_by: Vec<Vec<(u32, u64)>> = Vec::new();
    let mut b: usize = 0;
    while b < n_authors
        invariant
            b <= n_authors,
            direct_by@.len() == b,
            once_by@.len() == b,
            forall|x: int| 0 <= x < b ==> (#[trigger] direct_by@[x])@ == Seq::<(u32, u64)>::empty(),
            forall|x: int| 0 <= x < b ==> (#[trigger] once_by@[x])@ == Seq::<(u32, u64)>::empty(),
        decreases n_authors - b,
    {
        direct_by.push(Vec::new());
        once_by.push(Vec::new());
        b += 1;
    }
    let mut p: usize = 0;
    while p < hits.len()
        invariant
            graph_ready(refs@, authors@, scores@),
            authors_below(authors@, n_authors as int),
            forall|i: int| 0 <= i < hits@.len() ==> (#[trigger] hits@[i]).0 < refs@.len(),
            p <= hits@.len(),
            n_authors <= 0x1_0000_0000,
            direct_by@.len() == n_authors,
            once_by@.len() == n_authors,
            forall|x: int| 0 <= x < n_authors ==> (#[trigger] direct_by@[x])@ == author_links(hits@.take(p as int), refs@, authors@, scores@, x, false),
            forall|x: int| 0 <= x < n_authors ==> (#[trigger] once_by@[x])@ == author_links(hits@.take(p as int), refs@, authors@, scores@, x, true),
        decreases hits@.len() - p,
    {
        let (hp, hid) = hits[p];
        proof {
            assert(hits@[p as int].0 < refs@.len());
        }
        let (d, o) = hit_paper_links(hp, refs, authors, scores);
        proof {
            assert(hits@.take(p + 1).drop_last() =~= hits@.take(p as int));
            assert(hits@.take(p + 1).last() == (hp, hid));
            assert forall|k: int| 0 <= k < refs@[hp as int]@.len() implies #[trigger] refs@[hp as int]@[k] < refs@.len() by {
                assert(refs@[hp as int]@[k] < refs@.len());
            }
            lemma_links_below(refs@[hp as int]@, refs@, authors@, scores@, authors@[hp as int]@, n_authors as int);
            let ls = hp_links(refs@[hp as int]@, lists_view(refs@), lists_view(authors@), scores@, authors@[hp as int]@);
            assert(assoc(d@) == ls.0 && assoc(o@) == ls.1);
            assert forall|k: int| 0 <= k < d@.len() implies (#[trigger] d@[k]).0 < direct_by@.len() by {
                lemma_assoc_at(d@, d@[k].0);
                assert(assoc(d@).dom().contains(d@[k].0));
                assert(ls.0.dom().contains(d@[k].0));
            }
            assert forall|k: int| 0 <= k < o@.len() implies (#[trigger] o@[k]).0 < once_by@.len() by {
                lemma_assoc_at(o@, o@[k].0);
                assert(assoc(o@).dom().contains(o@[k].0));
                assert(ls.1.dom().contains(o@[k].0));
            }
        }
        let ghost db = direct_by@;
        let ghost ob = once_by@;
        spread_links(&mut direct_by, &d, hid);
        spread_links(&mut once_by, &o, hid);
        proof {
            assert forall|x: int| 0 <= x < n_authors implies (#[trigger] direct_by@[x])@ == author_links(hits@.take(p + 1), refs@, authors@, scores@, x, false) by {
                lemma_for_author(d@, hid, x as u32);
                assert(x == x as u32);
            }
            assert forall|x: int| 0 <= x < n_authors implies (#[trigger] once_by@[x])@ == author_links(hits@.take(p + 1), refs@, authors@, scores@, x, true) by {
                lemma_for_author(o@, hid, x as u32);
                assert(x == x as u32);
            }
        }
        p += 1;
    }
    proof {
        assert(hits@.take(p as int) =~= hits@);
    }
    let mut out: Vec<(Vec<u32>, Vec<u32>)> = Vec::new();
    let mut a: usize = 0;
    while a < n_authors
        invariant
            a <= n_authors,
            direct_by@.len() == n_authors,
            once_by@.len() == n_authors,
            2 * hits@.len() <= usize::MAX,
            forall|x: int| 0 <= x < n_authors ==> (#[trigger] direct_by@[x])@ == author_links(hits@, refs@, authors@, scores@, x, false),
            forall|x: int| 0 <= x < n_authors ==> (#[trigger] once_by@[x])@ == author_links(hits@, refs@, authors@, scores@, x, true),
            out@.len() == a,
            forall|x: int| 0 <= x < a ==> {
                let dl = author_links(hits@, refs@, authors@, scores@, x, false);
                let ol = author_links(hits@, refs@, authors@, scores@, x, true);
                &&& crate::merging::strictly_sorted((#[trigger] out@[x]).0@)
                &&& crate::merging::strictly_sorted(out@[x].1@)
                &&& out@[x].0@.to_set() == kept_hits(dl, link_pairs(dl, ol), limit as int)
                &&& out@[x].1@.to_set() == kept_hits(ol, link_pairs(dl, ol), limit as int)
            },
        decreases n_authors - a,
    {
        proof {
            lemma_author_links_len(hits@, refs@, authors@, scores@, a as int, false);
            lemma_author_links_len(hits@, refs@, authors@, scores@, a as int, true);
        }
        let pair = top_hits(&direct_by[a], &once_by[a], limit);
        out.push(pair);
        a += 1;
    }
    out
}

proof fn lemma_author_links_len(hits: Seq<(usize, u32)>, refs: Seq<Vec<u32>>, authors: Seq<Vec<u32>>, scores: Seq<u64>, a: int, once: bool)
    ensures
        author_links(hits, refs, authors, scores, a, once).len() <= hits.len(),
    decreases hits.len(),
{
    if hits.len() > 0 {
        lemma_author_links_len(hits.drop_last(), refs, authors, scores, a, once);
    }
}

proof fn lemma_add_once_below(o: Map<u32, u64>, d: Map<u32, u64>, ras2: Seq<u32>, hp_as: Seq<u32>, ras: Seq<u32>, s: u64, n: int)
    requires
        forall|a: u32| o.dom().contains(a) ==> a < n,
        forall|k: int| 0 <= k < ras2.len() ==> #[trigger] ras2[k] < n,
    ensures
        forall|a: u32| add_once(o, d, ras2, hp_as, ras, s).dom().contains(a) ==> a < n,
    decreases ras2.len(),
{
    if ras2.len() > 0 {
        let init = ras2.drop_last();
        assert forall|k: int| 0 <= k < init.len() implies #[trigger] init[k] < n by {
            assert(init[k] == ras2[k]);
        }
        lemma_add_once_below(o, d, init, hp_as, ras, s, n);
        assert(ras2[ras2.len() - 1] < n);
        let o0 = add_once(o, d, init, hp_as, ras, s);
        assert forall|a: u32| add_once(o, d, ras2, hp_as, ras, s).dom().contains(a) implies a < n by {
            if a != ras2.last() {
                assert(o0.dom().contains(a));
            }
        }
    }
}

proof fn lemma_add_once_refs_below(
    o: Map<u32, u64>,
    d: Map<u32, u64>,
    refs2: Seq<u32>,
    refs: Seq<Vec<u32>>,
    authors: Seq<Vec<u32>>,
    scores: Seq<u64>,
    hp_as: Seq<u32>,
    ras: Seq<u32>,
    n: int,
)
    requires
        forall|a: u32| o.dom().contains(a) ==> a < n,
        authors.len() == refs.len(),
        authors_below(authors, n),
        forall|k: int| 0 <= k < refs2.len() ==> #[trigger] refs2[k] < refs.len(),
    ensures
        forall|a: u32| add_once_refs(o, d, refs2, lists_view(authors), scores, hp_as, ras).dom().contains(a) ==> a < n,
    decreases refs2.len(),
{
    if refs2.len() > 0 {
        lemma_add_once_refs_below(o, d, refs2.drop_last(), refs, authors, scores, hp_as, ras, n);
        let r2 = refs2.last();
        assert(r2 == refs2[refs2.len() - 1]);
        let ras2 = lists_view(authors)[r2 as int];
        assert(ras2 == authors[r2 as int]@);
        assert forall|k: int| 0 <= k < ras2.len() implies #[trigger] ras2[k] < n by {
            assert(ras2[k] == authors[r2 as int]@[k]);
        }
        lemma_add_once_below(add_once_refs(o, d, refs2.drop_last(), lists_view(authors), scores, hp_as, ras), d, ras2, hp_as, ras, scores[r2 as int], n);
    }
}

proof fn lemma_links_below(rs: Seq<u32>, refs: Seq<Vec<u32>>, authors: Seq<Vec<u32>>, scores: Seq<u64>, hp_as: Seq<u32>, n: int)
    requires
        graph_ready(refs, authors, scores),
        authors_below(authors, n),
        forall|k: int| 0 <= k < rs.len() ==> #[trigger] rs[k] < refs.len(),
    ensures
        forall|a: u32| hp_links(rs, lists_view(refs), lists_view(authors), scores, hp_as).0.dom().contains(a) ==> a < n,
        forall|a: u32| hp_links(rs, lists_view(refs), lists_view(authors), scores, hp_as).1.dom().contains(a) ==> a < n,
    decreases rs.len(),
{
    if rs.len() > 0 {
        let init = rs.drop_last();
        lemma_links_below(init, refs, authors, scores, hp_as, n);
        let (d, o) = hp_links(init, lists_view(refs), lists_view(authors), scores, hp_as);
        let r = rs.last() as int;
        assert(rs.last() == rs[rs.len() - 1]);
        let ras = lists_view(authors)[r];
        assert(ras == authors[r]@);
        assert forall|k: int| 0 <= k < ras.len() implies #[trigger] ras[k] < n by {
            assert(ras[k] == authors[r]@[k]);
        }
        lemma_add_direct_below(d, ras, hp_as, (scores[r] * 3) as u64, n);
        let d2 = add_direct(d, ras, hp_as, (scores[r] * 3) as u64);
        let rs2 = lists_view(refs)[r];
        assert(rs2 == refs[r]@);
        assert forall|k: int| 0 <= k < rs2.len() implies #[trigger] rs2[k] < refs.len() by {
            assert(rs2[k] == refs[r]@[k]);
        }
        lemma_add_once_refs_below(o, d2, rs2, refs, authors, scores, hp_as, ras, n);
    }
}

/// A citing work scores three per citation, five per point of its top source's prestige, and
/// one; the prestige is twice the h-index for each quartile the source lies above the fifth
/// (a fifth or unknown quartile, or any beyond, giving none), and three per median citation.
pub proof fn law_citing_score_formula(c: int, h: int, m: int, q: int)
    ensures
        citing_score_spec(c, h, m, q) == 3 * c + 5 * ((5 - (if q < 5 { q } else { 5 })) * (2 * h) + 3 * m) + 1,
{
    let r = 5 - (if q < 5 { q } else { 5 });
    assert(r * h * 2 == r * (2 * h)) by (nonlinear_arith);
}

} // verus!
