//! Links between entities, turned around.
use vstd::prelude::*;

verus! {

/// How often `t` occurs in `s`.
pub open spec fn occurrences(s: Seq<u32>, t: int) -> nat
    decreases s.len(),
{
    if s.len() == 0 {
        0
    } else {
        occurrences(s.drop_last(), t) + if s.last() as int == t { 1nat } else { 0nat }
    }
}

/// The first `k` sources that link to `t`, each as often as it does, in order; a source is
/// kept as its number cut to 32 bits.
pub open spec fn sources_of(links: Seq<Seq<u32>>, k: int, t: int) -> Seq<u32>
    decreases k,
{
    if k <= 0 {
        Seq::empty()
    } else {
        sources_of(links, k - 1, t) + Seq::new(occurrences(links[k - 1], t), |_i: int| (k - 1) as u32)
    }
}

/// The targets of the links, as numbers.
pub open spec fn links_view(links: Seq<Vec<u32>>) -> Seq<Seq<u32>> {
    links.map_values(|v: Vec<u32>| v@)
}

/// A target that is counted: any, or any but 0 where 0 is ignored.
pub open spec fn counted(t: int, ignore_zero: bool) -> bool {
    !(ignore_zero && t == 0)
}

/// For each of `n_slots` targets, the sources that link to it, in order; with `ignore_zero`,
/// links to target 0 are not counted.
pub fn get_inverted_multi(links: &Vec<Vec<u32>>, n_slots: usize, ignore_zero: bool) -> (res: Vec<Vec<u32>>)
    requires
        forall|s: int, j: int| 0 <= s < links@.len() && 0 <= j < links@[s]@.len() && counted(#[trigger] links@[s]@[j] as int, ignore_zero) ==> links@[s]@[j] < n_slots,
    ensures
        res@.len() == n_slots,
        forall|t: int| 0 <= t < n_slots ==> #[trigger] res@[t]@ == if counted(t, ignore_zero) {
            sources_of(links_view(links@), links@.len() as int, t)
        } else {
            Seq::<u32>::empty()
        },
{
    let ghost lv = links_view(links@);
    let mut inv: Vec<Vec<u32>> = Vec::new();
    let mut t: usize = 0;
    while t < n_slots
        invariant
            t <= n_slots,
            inv@.len() == t,
            forall|q: int| 0 <= q < t ==> (#[trigger] inv@[q])@.len() == 0,
        decreases n_slots - t,
    {
        inv.push(Vec::new());
        t += 1;
    }
    let mut s: usize = 0;
    while s < links.len()
        invariant
            lv == links_view(links@),
            s <= links@.len(),
            inv@.len() == n_slots,
            forall|a: int, j: int| 0 <= a < links@.len() && 0 <= j < links@[a]@.len() && counted(#[trigger] links@[a]@[j] as int, ignore_zero) ==> links@[a]@[j] < n_slots,
            forall|q: int| 0 <= q < n_slots ==> (#[trigger] inv@[q])@ == if counted(q, ignore_zero) {
                sources_of(lv, s as int, q)
            } else {
                Seq::<u32>::empty()
            },
        decreases links@.len() - s,
    {
        let row = &links[s];
        #[verifier::truncate]
        let src = s as u32;
        let mut j: usize = 0;
        proof {
            assert forall|q: int| 0 <= q < n_slots implies #[trigger] occurrences(row@.subrange(0, 0), q) == 0 by {}
            assert(lv[s as int] == row@);
        }
        while j < row.len()
            invariant
                lv == links_view(links@),
                s < links@.len(),
                row@ == links@[s as int]@,
                lv[s as int] == row@,
                src == s as u32,
                j <= row@.len(),
                inv@.len() == n_slots,
                forall|a: int, k: int| 0 <= a < links@.len() && 0 <= k < links@[a]@.len() && counted(#[trigger] links@[a]@[k] as int, ignore_zero) ==> links@[a]@[k] < n_slots,
                forall|q: int| 0 <= q < n_slots ==> (#[trigger] inv@[q])@ == if counted(q, ignore_zero) {
                    sources_of(lv, s as int, q) + Seq::new(occurrences(row@.subrange(0, j as int), q), |_i: int| src)
                } else {
                    Seq::<u32>::empty()
                },
            decreases row@.len() - j,
        {
            let tg = row[j];
            proof {
                assert(links@[s as int]@[j as int] == tg);
                assert forall|q: int| 0 <= q < n_slots implies #[trigger] occurrences(row@.subrange(0, j + 1), q)
                    == occurrences(row@.subrange(0, j as int), q) + if tg as int == q { 1nat } else { 0nat } by {
                    assert(row@.subrange(0, j + 1).drop_last() =~= row@.subrange(0, j as int));
                }
            }
            if !(ignore_zero && tg == 0) {
                let ti = tg as usize;
                let ghost before = inv@;
                inv[ti].push(src);
                proof {
                    assert forall|q: int| 0 <= q < n_slots implies (#[trigger] inv@[q])@ == if counted(q, ignore_zero) {
                        sources_of(lv, s as int, q) + Seq::new(occurrences(row@.subrange(0, j + 1), q), |_i: int| src)
                    } else {
                        Seq::<u32>::empty()
                    } by {
                        if q == ti {
                            assert(q == tg as int);
                            assert(Seq::new(occurrences(row@.subrange(0, j + 1), q), |_i: int| src) =~= Seq::new(occurrences(row@.subrange(0, j as int), q), |_i: int| src).push(src));
                        } else {
                            assert(inv@[q] == before[q]);
                            assert(q != tg as int);
                        }
                    }
                }
            } else {
                proof {
                    assert forall|q: int| 0 <= q < n_slots implies (#[trigger] inv@[q])@ == if counted(q, ignore_zero) {
                        sources_of(lv, s as int, q) + Seq::new(occurrences(row@.subrange(0, j + 1), q), |_i: int| src)
                    } else {
                        Seq::<u32>::empty()
                    } by {
                        if counted(q, ignore_zero) {
                            assert(q != tg as int);
                        }
                    }
                }
            }
            j += 1;
        }
        proof {
            assert(row@.subrange(0, row@.len() as int) =~= row@);
            assert forall|q: int| 0 <= q < n_slots implies (#[trigger] inv@[q])@ == if counted(q, ignore_zero) {
                sources_of(lv, s + 1, q)
            } else {
                Seq::<u32>::empty()
            } by {
                assert(sources_of(lv, s + 1, q) == sources_of(lv, s as int, q) + Seq::new(occurrences(lv[s as int], q), |_i: int| ((s + 1) - 1) as u32));
                assert(Seq::new(occurrences(lv[s as int], q), |_i: int| ((s + 1) - 1) as u32) =~= Seq::new(occurrences(row@, q), |_i: int| src));
            }
        }
        s += 1;
    }
    inv
}

/// A reference is dropped where the citing work's year is known and the cited work came
/// later.
pub open spec fn inverted(citing_year: u8, cited_year: u8) -> bool {
    citing_year > 0 && cited_year > citing_year
}

/// The references that are kept, in order.
pub open spec fn kept_refs(cited: Seq<u32>, citing_year: u8, years: Seq<u8>) -> Seq<u32>
    decreases cited.len(),
{
    if cited.len() == 0 {
        Seq::empty()
    } else {
        let prev = kept_refs(cited.drop_last(), citing_year, years);
        if inverted(citing_year, years[cited.last() as int]) {
            prev
        } else {
            prev.push(cited.last())
        }
    }
}

/// How many references of the first `k` works are dropped.
pub open spec fn dropped_refs(refs: Seq<Vec<u32>>, years: Seq<u8>, k: int) -> int
    decreases k,
{
    if k <= 0 {
        0
    } else {
        dropped_refs(refs, years, k - 1) + refs[k - 1]@.len() - kept_refs(refs[k - 1]@, years[k - 1], years).len()
    }
}

/// How many references the first `k` works hold.
pub open spec fn ref_count(refs: Seq<Vec<u32>>, k: int) -> int
    decreases k,
{
    if k <= 0 {
        0
    } else {
        ref_count(refs, k - 1) + refs[k - 1]@.len()
    }
}

proof fn lemma_kept_len(cited: Seq<u32>, citing_year: u8, years: Seq<u8>)
    ensures
        kept_refs(cited, citing_year, years).len() <= cited.len(),
    decreases cited.len(),
{
    if cited.len() > 0 {
        lemma_kept_len(cited.drop_last(), citing_year, years);
    }
}

proof fn lemma_dropped_bounded(refs: Seq<Vec<u32>>, years: Seq<u8>, k: int)
    requires
        0 <= k <= refs.len(),
    ensures
        0 <= dropped_refs(refs, years, k) <= ref_count(refs, k),
    decreases k,
{
    if k > 0 {
        lemma_dropped_bounded(refs, years, k - 1);
        lemma_kept_len(refs[k - 1]@, years[k - 1], years);
    }
}

/// Each work's references without those to works that came after it, where its own year is
/// known, and how many were dropped.
pub fn drop_later_references(refs: &Vec<Vec<u32>>, years: &Vec<u8>) -> (res: (Vec<Vec<u32>>, usize))
    requires
        refs@.len() <= years@.len(),
        forall|w: int, k: int| 0 <= w < refs@.len() && 0 <= k < refs@[w]@.len() ==> (#[trigger] refs@[w]@[k]) < years@.len(),
        ref_count(refs@, refs@.len() as int) <= usize::MAX,
    ensures
        res.0@.len() == refs@.len(),
        forall|w: int| 0 <= w < refs@.len() ==> (#[trigger] res.0@[w])@ == kept_refs(refs@[w]@, years@[w], years@),
        res.1 == dropped_refs(refs@, years@, refs@.len() as int),
{
    let mut out: Vec<Vec<u32>> = Vec::new();
    let mut n_inversions: usize = 0;
    let mut w: usize = 0;
    while w < refs.len()
        invariant
            w <= refs@.len(),
            refs@.len() <= years@.len(),
            forall|a: int, k: int| 0 <= a < refs@.len() && 0 <= k < refs@[a]@.len() ==> (#[trigger] refs@[a]@[k]) < years@.len(),
            ref_count(refs@, refs@.len() as int) <= usize::MAX,
            out@.len() == w,
            forall|a: int| 0 <= a < w ==> (#[trigger] out@[a])@ == kept_refs(refs@[a]@, years@[a], years@),
            n_inversions == dropped_refs(refs@, years@, w as int),
        decreases refs@.len() - w,
    {
        let cy = years[w];
        let cited = &refs[w];
        let mut kept: Vec<u32> = Vec::new();
        let mut dropped: usize = 0;
        let mut k: usize = 0;
        proof {
            lemma_dropped_bounded(refs@, years@, w + 1);
            lemma_ref_count_grows(refs@, w + 1, refs@.len() as int);
            assert(cited@.take(0) =~= Seq::<u32>::empty());
        }
        while k < cited.len()
            invariant
                k <= cited@.len(),
                cited@ == refs@[w as int]@,
                cy == years@[w as int],
                forall|k2: int| 0 <= k2 < cited@.len() ==> (#[trigger] cited@[k2]) < years@.len(),
                kept@ == kept_refs(cited@.take(k as int), cy, years@),
                dropped == k - kept@.len(),
                kept@.len() <= k,
            decreases cited@.len() - k,
        {
            let r = cited[k];
            proof {
                assert(cited@.take(k + 1).drop_last() =~= cited@.take(k as int));
                assert(cited@.take(k + 1).last() == r);
            }
            if cy > 0 && years[r as usize] > cy {
                dropped += 1;
            } else {
                kept.push(r);
            }
            k += 1;
        }
        proof {
            assert(cited@.take(k as int) =~= cited@);
        }
        n_inversions = n_inversions + dropped;
        out.push(kept);
        w += 1;
    }
    (out, n_inversions)
}

proof fn lemma_ref_count_grows(refs: Seq<Vec<u32>>, a: int, b: int)
    requires
        0 <= a <= b <= refs.len(),
    ensures
        ref_count(refs, a) <= ref_count(refs, b),
    decreases b - a,
{
    if a < b {
        lemma_ref_count_grows(refs, a, b - 1);
    }
}

/// A work whose year is known keeps exactly its references to works of that year or before,
/// in their order: no kept reference points to a work that came after it. A work of unknown
/// year (0) keeps them all.
pub proof fn law_kept_refs_not_later(cited: Seq<u32>, citing_year: u8, years: Seq<u8>)
    ensures
        kept_refs(cited, citing_year, years) == cited.filter(|r: u32| citing_year == 0 || years[r as int] <= citing_year),
        forall|k: int| 0 <= k < kept_refs(cited, citing_year, years).len() ==> citing_year == 0
            || years[#[trigger] kept_refs(cited, citing_year, years)[k] as int] <= citing_year,
    decreases cited.len(),
{
    reveal(Seq::filter);
    let f = |r: u32| citing_year == 0 || years[r as int] <= citing_year;
    if cited.len() > 0 {
        law_kept_refs_not_later(cited.drop_last(), citing_year, years);
    }
    let kept = kept_refs(cited, citing_year, years);
    assert forall|k: int| 0 <= k < kept.len() implies citing_year == 0 || years[#[trigger] kept[k] as int] <= citing_year by {
        cited.lemma_filter_pred(f, k);
    }
}

} // verus!