//! The screens of the filter step, once the rows are counted: which sources keep enough
//! targets, which works keep few enough authors, which institutions keep enough works, and
//! which pinned works ride through anyway; and how the entity mapping sorts work and author
//! ids around the merges of the user ledger.
use vstd::prelude::*;
use crate::id_collections::{
    alias_pairs, group_map_add, group_map_count, group_map_into_groups, group_map_new, group_map_open,
    group_sets, id_items, AliasMap, IdSet,
};
use crate::ledger::lemma_to_set_push;
use crate::metrics::{kind_text, WorkScreen};
use crate::lens::{field_id, id_field_ready, read_id};

verus! {

/// The count lies within the screen's bounds.
pub open spec fn in_bounds(n: int, min: int, max: int) -> bool {
    min <= n && n <= max
}

/// The sources of the groups whose target count lies within the bounds, in order.
pub open spec fn kept_sources(groups: Seq<(u64, Vec<u64>)>, min: int, max: int) -> Seq<u64>
    decreases groups.len(),
{
    if groups.len() == 0 {
        Seq::empty()
    } else {
        let g = groups.last();
        if in_bounds(g.1@.len() as int, min, max) {
            kept_sources(groups.drop_last(), min, max).push(g.0)
        } else {
            kept_sources(groups.drop_last(), min, max)
        }
    }
}

/// The targets of the groups whose target count lies within the bounds.
pub open spec fn kept_targets(groups: Seq<(u64, Vec<u64>)>, min: int, max: int) -> Set<u64>
    decreases groups.len(),
{
    if groups.len() == 0 {
        Set::empty()
    } else {
        let g = groups.last();
        if in_bounds(g.1@.len() as int, min, max) {
            kept_targets(groups.drop_last(), min, max) + g.1@.to_set()
        } else {
            kept_targets(groups.drop_last(), min, max)
        }
    }
}

/// Whether a row's target joins its source's entry: always when targets are screened too or
/// the screen has an upper bound, else only until the entry holds `min`, which is all the
/// lower bound needs.
pub fn grows_entry(filter_targets: bool, has_max: bool, entry_len: usize, min: usize) -> (res: bool)
    ensures
        res == (filter_targets || entry_len < min || has_max),
{
    filter_targets || entry_len < min || has_max
}

proof fn lemma_kept_sources_in(groups: Seq<(u64, Vec<u64>)>, min: int, max: int, x: u64)
    ensures
        kept_sources(groups, min, max).contains(x) <==> exists|i: int| 0 <= i < groups.len() && #[trigger] groups[i].0 == x && in_bounds(groups[i].1@.len() as int, min, max),
    decreases groups.len(),
{
    if groups.len() > 0 {
        let init = groups.drop_last();
        lemma_kept_sources_in(init, min, max, x);
        let k = kept_sources(init, min, max);
        if exists|i: int| 0 <= i < groups.len() && #[trigger] groups[i].0 == x && in_bounds(groups[i].1@.len() as int, min, max) {
            let i = choose|i: int| 0 <= i < groups.len() && #[trigger] groups[i].0 == x && in_bounds(groups[i].1@.len() as int, min, max);
            if i < groups.len() - 1 {
                assert(init[i] == groups[i]);
                let j = choose|j: int| 0 <= j < k.len() && k[j] == x;
                if in_bounds(groups.last().1@.len() as int, min, max) {
                    assert(k.push(groups.last().0)[j] == x);
                }
            } else {
                if in_bounds(groups.last().1@.len() as int, min, max) {
                    assert(k.push(groups.last().0)[k.len() as int] == x);
                }
            }
        }
        if kept_sources(groups, min, max).contains(x) {
            let j = choose|j: int| 0 <= j < kept_sources(groups, min, max).len() && kept_sources(groups, min, max)[j] == x;
            if in_bounds(groups.last().1@.len() as int, min, max) && j == k.len() {
                assert(groups[groups.len() - 1].0 == x);
            } else {
                assert(k.contains(x)) by {
                    assert(k[j] == x);
                }
                let i = choose|i: int| 0 <= i < init.len() && #[trigger] init[i].0 == x && in_bounds(init[i].1@.len() as int, min, max);
                assert(groups[i] == init[i]);
            }
        }
    }
}

/// The screen of one link kind: the sources whose count of distinct targets lies within
/// `min..=max` are kept, in order, and, where targets are screened too, the targets they link
/// to. A work of `forced` that the screen alone drops is kept as well and reported.
pub fn screen_sources(
    groups: &Vec<(u64, Vec<u64>)>,
    min: usize,
    max: usize,
    filter_targets: bool,
    forced: Option<&IdSet>,
) -> (res: (Vec<u64>, IdSet, Vec<u64>))
    requires
        groups_distinct(groups@),
    ensures
        ({
            let kept = kept_sources(groups@, min as int, max as int);
            let (sources, targets, screened_out) = res;
            &&& sources@ == kept + screened_out@
            &&& id_items(targets) == (if filter_targets {
                kept_targets(groups@, min as int, max as int)
            } else {
                Set::<u64>::empty()
            })
            &&& screened_out@.no_duplicates()
            &&& screened_out@.to_set() == (match forced {
                Some(f) => id_items(*f).difference(kept.to_set()),
                None => Set::<u64>::empty(),
            })
        }),
{
    let ghost gv = groups@;
    let mut sources: Vec<u64> = Vec::new();
    let mut kept_set = IdSet::new();
    let mut targets = IdSet::new();
    let mut i: usize = 0;
    proof {
        assert(gv.subrange(0, 0) =~= Seq::<(u64, Vec<u64>)>::empty());
    }
    while i < groups.len()
        invariant
            gv == groups@,
            i <= gv.len(),
            sources@ == kept_sources(gv.subrange(0, i as int), min as int, max as int),
            id_items(kept_set) == sources@.to_set(),
            id_items(targets) == (if filter_targets {
                kept_targets(gv.subrange(0, i as int), min as int, max as int)
            } else {
                Set::<u64>::empty()
            }),
        decreases gv.len() - i,
    {
        let src = groups[i].0;
        let n = groups[i].1.len();
        proof {
            let p = gv.subrange(0, i + 1);
            assert(p.drop_last() =~= gv.subrange(0, i as int));
            assert(p.last() == gv[i as int]);
        }
        if min <= n && n <= max {
            let ghost before = sources@;
            sources.push(src);
            kept_set.insert(src);
            proof {
                lemma_to_set_push(before, src);
            }
            if filter_targets {
                let ghost t0 = id_items(targets);
                let mut j: usize = 0;
                let row = &groups[i].1;
                while j < row.len()
                    invariant
                        j <= row@.len(),
                        id_items(targets) == t0 + row@.subrange(0, j as int).to_set(),
                    decreases row@.len() - j,
                {
                    targets.insert(row[j]);
                    proof {
                        assert(row@.subrange(0, j + 1) =~= row@.subrange(0, j as int).push(row@[j as int]));
                        lemma_to_set_push(row@.subrange(0, j as int), row@[j as int]);
                        assert(t0 + row@.subrange(0, j + 1).to_set() =~= (t0 + row@.subrange(0, j as int).to_set()).insert(row@[j as int]));
                    }
                    j += 1;
                }
                proof {
                    assert(row@.subrange(0, row@.len() as int) =~= row@);
                }
            }
        }
        i += 1;
    }
    proof {
        assert(gv.subrange(0, gv.len() as int) =~= gv);
    }
    let ghost kept = sources@;
    let mut screened_out: Vec<u64> = Vec::new();
    match forced {
        Some(f) => {
            let ws = f.items();
            let mut k: usize = 0;
            while k < ws.len()
                invariant
                    k <= ws@.len(),
                    ws@.no_duplicates(),
                    id_items(kept_set) == kept.to_set(),
                    sources@ == kept + screened_out@,
                    screened_out@.no_duplicates(),
                    forall|x: u64| #[trigger] screened_out@.contains(x) <==> (exists|q: int| 0 <= q < k && ws@[q] == x) && !kept.to_set().contains(x),
                decreases ws@.len() - k,
            {
                let w = ws[k];
                if !kept_set.contains(w) {
                    let ghost before = screened_out@;
                    proof {
                        assert(!before.contains(w)) by {
                            if before.contains(w) {
                                let q = choose|q: int| 0 <= q < k && ws@[q] == w;
                                assert(ws@[q] == ws@[k as int]);
                            }
                        }
                    }
                    screened_out.push(w);
                    sources.push(w);
                    proof {
                        assert(sources@ =~= kept + screened_out@);
                        assert forall|x: u64| #[trigger] screened_out@.contains(x) <==> (exists|q: int| 0 <= q < k + 1 && ws@[q] == x) && !kept.to_set().contains(x) by {
                            if screened_out@.contains(x) {
                                let j = choose|j: int| 0 <= j < screened_out@.len() && screened_out@[j] == x;
                                if j < before.len() {
                                    assert(before.contains(x));
                                } else {
                                    assert(ws@[k as int] == x);
                                }
                            }
                            if (exists|q: int| 0 <= q < k + 1 && ws@[q] == x) && !kept.to_set().contains(x) {
                                let q = choose|q: int| 0 <= q < k + 1 && ws@[q] == x;
                                if q < k {
                                    assert(before.contains(x));
                                    let j = choose|j: int| 0 <= j < before.len() && before[j] == x;
                                    assert(screened_out@[j] == x);
                                } else {
                                    assert(screened_out@[before.len() as int] == x);
                                }
                            }
                        }
                    }
                } else {
                    proof {
                        assert forall|x: u64| #[trigger] screened_out@.contains(x) <==> (exists|q: int| 0 <= q < k + 1 && ws@[q] == x) && !kept.to_set().contains(x) by {
                            if (exists|q: int| 0 <= q < k + 1 && ws@[q] == x) && !kept.to_set().contains(x) {
                                let q = choose|q: int| 0 <= q < k + 1 && ws@[q] == x;
                                if q == k {
                                    assert(kept.to_set().contains(w));
                                }
                            }
                        }
                    }
                }
                k += 1;
            }
            proof {
                assert forall|x: u64| #[trigger] screened_out@.to_set().contains(x) <==> id_items(*f).difference(kept.to_set()).contains(x) by {
                    if id_items(*f).contains(x) {
                        assert(ws@.to_set().contains(x));
                        let q = choose|q: int| 0 <= q < ws@.len() && ws@[q] == x;
                    }
                    if exists|q: int| 0 <= q < ws@.len() && ws@[q] == x {
                        let q = choose|q: int| 0 <= q < ws@.len() && ws@[q] == x;
                        assert(ws@.to_set().contains(ws@[q]));
                    }
                }
                assert(screened_out@.to_set() =~= id_items(*f).difference(kept.to_set()));
            }
        },
        None => {
            proof {
                assert(sources@ =~= kept + screened_out@);
                assert(screened_out@.to_set() =~= Set::<u64>::empty());
            }
        },
    }
    (sources, targets, screened_out)
}

/// The institutions with at least `min` works, in order.
pub fn screen_institutions(inst_works: &Vec<(u64, Vec<u64>)>, min: usize) -> (res: Vec<u64>)
    requires
        groups_distinct(inst_works@),
    ensures
        res@ == kept_sources(inst_works@, min as int, usize::MAX as int),
{
    let (sources, _targets, out) = screen_sources(inst_works, min, usize::MAX, false, None);
    proof {
        if out@.len() > 0 {
            assert(out@.to_set().contains(out@[0]));
        }
        assert(out@ =~= Seq::<u64>::empty());
        assert(sources@ =~= kept_sources(inst_works@, min as int, usize::MAX as int));
    }
    sources
}

/// The work is kept: few enough authors, or pinned.
pub open spec fn work_kept(g: (u64, Vec<u64>), max_authors: int, forced: Set<u64>) -> bool {
    g.1@.len() <= max_authors || forced.contains(g.0)
}

/// The works kept, in order.
pub open spec fn kept_works(groups: Seq<(u64, Vec<u64>)>, max_authors: int, forced: Set<u64>) -> Seq<u64>
    decreases groups.len(),
{
    if groups.len() == 0 {
        Seq::empty()
    } else {
        let g = groups.last();
        if work_kept(g, max_authors, forced) {
            kept_works(groups.drop_last(), max_authors, forced).push(g.0)
        } else {
            kept_works(groups.drop_last(), max_authors, forced)
        }
    }
}

/// The authors of the works kept.
pub open spec fn kept_authors(groups: Seq<(u64, Vec<u64>)>, max_authors: int, forced: Set<u64>) -> Set<u64>
    decreases groups.len(),
{
    if groups.len() == 0 {
        Set::empty()
    } else {
        let g = groups.last();
        if work_kept(g, max_authors, forced) {
            kept_authors(groups.drop_last(), max_authors, forced) + g.1@.to_set()
        } else {
            kept_authors(groups.drop_last(), max_authors, forced)
        }
    }
}

/// The authorship screen: a work with at most `max_authors` authors is kept, and so is a
/// pinned one, whatever its authors; the authors of the kept works are kept.
pub fn screen_authorships(work_authors: &Vec<(u64, Vec<u64>)>, max_authors: usize, forced: &IdSet) -> (res: (Vec<u64>, IdSet))
    requires
        groups_distinct(work_authors@),
    ensures
        res.0@ == kept_works(work_authors@, max_authors as int, id_items(*forced)),
        id_items(res.1) == kept_authors(work_authors@, max_authors as int, id_items(*forced)),
{
    let ghost gv = work_authors@;
    let ghost fs = id_items(*forced);
    let mut works: Vec<u64> = Vec::new();
    let mut authors = IdSet::new();
    let mut i: usize = 0;
    proof {
        assert(gv.subrange(0, 0) =~= Seq::<(u64, Vec<u64>)>::empty());
    }
    while i < work_authors.len()
        invariant
            gv == work_authors@,
            fs == id_items(*forced),
            i <= gv.len(),
            works@ == kept_works(gv.subrange(0, i as int), max_authors as int, fs),
            id_items(authors) == kept_authors(gv.subrange(0, i as int), max_authors as int, fs),
        decreases gv.len() - i,
    {
        let w = work_authors[i].0;
        let row = &work_authors[i].1;
        proof {
            let p = gv.subrange(0, i + 1);
            assert(p.drop_last() =~= gv.subrange(0, i as int));
            assert(p.last() == gv[i as int]);
        }
        if row.len() <= max_authors || forced.contains(w) {
            works.push(w);
            let ghost a0 = id_items(authors);
            let mut j: usize = 0;
            proof {
                assert(row@.subrange(0, 0).to_set() =~= Set::<u64>::empty());
                assert(a0 + Set::<u64>::empty() =~= a0);
            }
            while j < row.len()
                invariant
                    j <= row@.len(),
                    id_items(authors) == a0 + row@.subrange(0, j as int).to_set(),
                decreases row@.len() - j,
            {
                authors.insert(row[j]);
                proof {
                    assert(row@.subrange(0, j + 1) =~= row@.subrange(0, j as int).push(row@[j as int]));
                    lemma_to_set_push(row@.subrange(0, j as int), row@[j as int]);
                    assert(a0 + row@.subrange(0, j + 1).to_set() =~= (a0 + row@.subrange(0, j as int).to_set()).insert(row@[j as int]));
                }
                j += 1;
            }
            proof {
                assert(row@.subrange(0, row@.len() as int) =~= row@);
            }
        }
        i += 1;
    }
    proof {
        assert(gv.subrange(0, gv.len() as int) =~= gv);
    }
    (works, authors)
}

/// What the work screen makes of one work.
#[derive(Debug, Clone, Copy, PartialEq, Eq, Structural)]
pub struct WorkVerdict {
    /// the work passes: as a standard work or as a pinned one
    pub taken: bool,
    /// the work is pinned and within the years
    pub forced: bool,
    /// pinned, but of a kind the screen alone would drop
    pub outside_type: bool,
}

/// The work screen: within the years and not retracted, a work is taken when it is of a
/// screened kind or pinned; a pinned one keeps only the year and retraction predicates.
pub fn judge_work(screen: &WorkScreen, retracted: bool, year: u16, kind: Option<&str>, pinned: bool) -> (res: WorkVerdict)
    ensures
        ({
            let screened = !retracted && screen.first_year <= year && year <= screen.final_year;
            let standard = screened && exists|i: int| 0 <= i < screen.kinds@.len() && #[trigger] screen.kinds@[i]@ == kind_text(kind);
            let forced = screened && pinned;
            res == WorkVerdict { taken: standard || forced, forced, outside_type: forced && !standard }
        }),
{
    let screened = screen.admits_publication(retracted, year);
    let standard = screened && screen.admits_kind(kind);
    let forced = screened && pinned;
    WorkVerdict { taken: standard || forced, forced, outside_type: forced && !standard }
}

/// The author screen: an author passes the earlier screens and has enough citations and
/// works, or is pinned. The second flag tells a pinned author that only the pin keeps.
pub fn judge_author(screen: &WorkScreen, in_pre_filter: bool, cited_by_count: u64, works_count: u64, pinned: bool) -> (res: (bool, bool))
    ensures
        ({
            let standard = in_pre_filter && cited_by_count >= screen.min_author_citations && works_count >= screen.min_author_papers;
            res == (pinned || standard, pinned && !standard)
        }),
{
    let standard = in_pre_filter && cited_by_count >= screen.min_author_citations as u64 && works_count >= screen.min_author_papers as u64;
    (pinned || standard, pinned && !standard)
}

/// Institutions dropped whatever their works.
pub open spec fn forced_drops() -> Seq<u64> {
    seq![4210095297u64, 4210109586u64]
}

/// The institution screen: an institution passes the earlier screens and is not one of the
/// dropped ones.
pub fn keeps_institution(id: u64, in_pre_filter: bool) -> (res: bool)
    ensures
        res == (!forced_drops().contains(id) && in_pre_filter),
{
    let dropped = id == 4210095297u64 || id == 4210109586u64;
    proof {
        if forced_drops().contains(id) {
            let i = choose|i: int| 0 <= i < 2 && forced_drops()[i] == id;
        }
        if dropped {
            if id == 4210095297u64 {
                assert(forced_drops()[0] == id);
            } else {
                assert(forced_drops()[1] == id);
            }
        }
    }
    !dropped && in_pre_filter
}

/// The parsed ids, in order, that are not the drop side of a merge.
pub open spec fn mapped_work_ids(ids: Seq<Option<u64>>, aliases: Map<u64, u64>) -> Seq<u64>
    decreases ids.len(),
{
    if ids.len() == 0 {
        Seq::empty()
    } else {
        let prev = mapped_work_ids(ids.drop_last(), aliases);
        match ids.last() {
            Some(p) => if aliases.dom().contains(p) {
                prev
            } else {
                prev.push(p)
            },
            None => prev,
        }
    }
}

/// The parsed ids, in order, that are not the drop side of a merge and that the filter
/// holds (`selected`) or does not hold (not `selected`).
pub open spec fn sorted_author_ids(ids: Seq<Option<u64>>, aliases: Map<u64, u64>, filter: Set<u64>, selected: bool) -> Seq<u64>
    decreases ids.len(),
{
    if ids.len() == 0 {
        Seq::empty()
    } else {
        let prev = sorted_author_ids(ids.drop_last(), aliases, filter, selected);
        match ids.last() {
            Some(p) => if !aliases.dom().contains(p) && filter.contains(p) == selected {
                prev.push(p)
            } else {
                prev
            },
            None => prev,
        }
    }
}

/// The work ids that get a place: every parsed id but the drop sides of merges.
pub fn map_work_ids(ids: &Vec<Option<u64>>, aliases: &AliasMap) -> (res: Vec<u64>)
    ensures
        res@ == mapped_work_ids(ids@, alias_pairs(*aliases)),
{
    let mut out: Vec<u64> = Vec::new();
    let mut i: usize = 0;
    proof {
        assert(ids@.take(0) =~= Seq::<Option<u64>>::empty());
    }
    while i < ids.len()
        invariant
            i <= ids@.len(),
            out@ == mapped_work_ids(ids@.take(i as int), alias_pairs(*aliases)),
        decreases ids@.len() - i,
    {
        proof {
            assert(ids@.take(i + 1).drop_last() =~= ids@.take(i as int));
            assert(ids@.take(i + 1).last() == ids@[i as int]);
        }
        if let Some(p) = ids[i] {
            if aliases.get(p).is_none() {
                out.push(p);
            }
        }
        i += 1;
    }
    proof {
        assert(ids@.take(i as int) =~= ids@);
    }
    out
}

/// The author ids split as they get places: the drop sides of merges get none, those the
/// filter holds are selected, and the rest are discarded; both lists keep the input order.
pub fn split_author_ids(ids: &Vec<Option<u64>>, aliases: &AliasMap, filter: &IdSet) -> (res: (Vec<u64>, Vec<u64>))
    ensures
        res.0@ == sorted_author_ids(ids@, alias_pairs(*aliases), id_items(*filter), true),
        res.1@ == sorted_author_ids(ids@, alias_pairs(*aliases), id_items(*filter), false),
{
    let mut selected: Vec<u64> = Vec::new();
    let mut discarded: Vec<u64> = Vec::new();
    let mut i: usize = 0;
    proof {
        assert(ids@.take(0) =~= Seq::<Option<u64>>::empty());
    }
    while i < ids.len()
        invariant
            i <= ids@.len(),
            selected@ == sorted_author_ids(ids@.take(i as int), alias_pairs(*aliases), id_items(*filter), true),
            discarded@ == sorted_author_ids(ids@.take(i as int), alias_pairs(*aliases), id_items(*filter), false),
        decreases ids@.len() - i,
    {
        proof {
            assert(ids@.take(i + 1).drop_last() =~= ids@.take(i as int));
            assert(ids@.take(i + 1).last() == ids@[i as int]);
        }
        if let Some(p) = ids[i] {
            if aliases.get(p).is_none() {
                if filter.contains(p) {
                    selected.push(p);
                } else {
                    discarded.push(p);
                }
            }
        }
        i += 1;
    }
    proof {
        assert(ids@.take(i as int) =~= ids@);
    }
    (selected, discarded)
}

/// Every group's targets are distinct.
pub open spec fn groups_distinct(groups: Seq<(u64, Vec<u64>)>) -> bool {
    forall|i: int| 0 <= i < groups.len() ==> (#[trigger] groups[i]).1@.no_duplicates()
}

/// The groups hold the map: each source once, with its targets each once, exactly the
/// sources of the map with their sets of targets.
pub open spec fn groups_hold(groups: Seq<(u64, Vec<u64>)>, m: Map<u64, Set<u64>>) -> bool {
    &&& forall|i: int, j: int| 0 <= i < j < groups.len() ==> groups[i].0 != groups[j].0
    &&& groups_distinct(groups)
    &&& forall|i: int| 0 <= i < groups.len() ==> m.dom().contains((#[trigger] groups[i]).0) && groups[i].1@.to_set() == m[groups[i].0]
    &&& forall|k: u64| #[trigger] m.dom().contains(k) ==> exists|i: int| 0 <= i < groups.len() && (#[trigger] groups[i]).0 == k
}

/// The id passes an optional pre-filter.
pub open spec fn passes(filter: Option<Set<u64>>, id: u64) -> bool {
    match filter {
        Some(f) => f.contains(id),
        None => true,
    }
}

/// A pre-filter's ids.
pub open spec fn filter_view(filter: Option<&IdSet>) -> Option<Set<u64>> {
    match filter {
        Some(f) => Some(id_items(*f)),
        None => None,
    }
}

/// The groups after one more row: a row whose ids both parse and pass the pre-filters opens
/// its source's group where there is none, and adds its target while the group may grow.
pub open spec fn add_row(
    m: Map<u64, Set<u64>>,
    row: (Option<u64>, Option<u64>),
    sf: Option<Set<u64>>,
    tf: Option<Set<u64>>,
    filter_targets: bool,
    has_max: bool,
    min: int,
) -> Map<u64, Set<u64>> {
    match row {
        (Some(sk), Some(tk)) => if passes(sf, sk) && passes(tf, tk) {
            let m1 = if m.dom().contains(sk) {
                m
            } else {
                m.insert(sk, Set::empty())
            };
            if filter_targets || m1[sk].len() < min || has_max {
                m1.insert(sk, m1[sk].insert(tk))
            } else {
                m1
            }
        } else {
            m
        },
        _ => m,
    }
}

/// The groups the rows make.
pub open spec fn grouped_rows(
    rows: Seq<(Option<u64>, Option<u64>)>,
    sf: Option<Set<u64>>,
    tf: Option<Set<u64>>,
    filter_targets: bool,
    has_max: bool,
    min: int,
) -> Map<u64, Set<u64>>
    decreases rows.len(),
{
    if rows.len() == 0 {
        Map::empty()
    } else {
        add_row(grouped_rows(rows.drop_last(), sf, tf, filter_targets, has_max, min), rows.last(), sf, tf, filter_targets, has_max, min)
    }
}

/// Groups the rows of (source, target) ids, each parsed or not, by source: a row counts where
/// both ids parse and pass their pre-filters, and a group grows while `grows_entry` lets it.
/// The groups come in an order the contract leaves open.
pub fn group_rows(
    rows: &Vec<(Option<u64>, Option<u64>)>,
    source_filter: Option<&IdSet>,
    target_filter: Option<&IdSet>,
    filter_targets: bool,
    has_max: bool,
    min: usize,
) -> (res: Vec<(u64, Vec<u64>)>)
    ensures
        groups_hold(res@, grouped_rows(rows@, filter_view(source_filter), filter_view(target_filter), filter_targets, has_max, min as int)),
{
    let ghost sf = filter_view(source_filter);
    let ghost tf = filter_view(target_filter);
    let mut m = group_map_new();
    let mut r: usize = 0;
    proof {
        assert(rows@.take(0) =~= Seq::<(Option<u64>, Option<u64>)>::empty());
    }
    while r < rows.len()
        invariant
            r <= rows@.len(),
            sf == filter_view(source_filter),
            tf == filter_view(target_filter),
            group_sets(m) == grouped_rows(rows@.take(r as int), sf, tf, filter_targets, has_max, min as int),
        decreases rows@.len() - r,
    {
        proof {
            assert(rows@.take(r + 1).drop_last() =~= rows@.take(r as int));
            assert(rows@.take(r + 1).last() == rows@[r as int]);
        }
        if let (Some(sk), Some(tk)) = rows[r] {
            let sp = match source_filter {
                Some(f) => f.contains(sk),
                None => true,
            };
            let tp = match target_filter {
                Some(f) => f.contains(tk),
                None => true,
            };
            if sp && tp {
                group_map_open(&mut m, sk);
                let n = group_map_count(&m, sk);
                if grows_entry(filter_targets, has_max, n, min) {
                    group_map_add(&mut m, sk, tk);
                }
            }
        }
        r += 1;
    }
    proof {
        assert(rows@.take(r as int) =~= rows@);
    }
    let ghost g = group_sets(m);
    let res = group_map_into_groups(m);
    proof {
        assert(groups_distinct(res@));
    }
    res
}

/// The ids of the rows of (source, target) fields, each where it parses.
pub open spec fn edge_ids(edges: Seq<(String, String)>) -> Seq<(Option<u64>, Option<u64>)> {
    edges.map_values(|e: (String, String)| (field_id(e.0@), field_id(e.1@)))
}

/// Every field of the rows holds an id's prefix.
pub open spec fn edges_ready(edges: Seq<(String, String)>) -> bool {
    forall|i: int| 0 <= i < edges.len() ==> id_field_ready((#[trigger] edges[i]).0@) && id_field_ready(edges[i].1@)
}

/// Reads the ids of the rows of (source, target) fields.
pub fn parse_edges(edges: &Vec<(String, String)>) -> (res: Vec<(Option<u64>, Option<u64>)>)
    requires
        edges_ready(edges@),
    ensures
        res@ == edge_ids(edges@),
{
    let mut out: Vec<(Option<u64>, Option<u64>)> = Vec::new();
    let mut i: usize = 0;
    while i < edges.len()
        invariant
            i <= edges@.len(),
            edges_ready(edges@),
            out@ == edge_ids(edges@.take(i as int)),
        decreases edges@.len() - i,
    {
        let s = read_id(&edges[i].0);
        let t = read_id(&edges[i].1);
        out.push((s, t));
        proof {
            assert(edge_ids(edges@.take(i + 1)) =~= edge_ids(edges@.take(i as int)).push((s, t)));
        }
        i += 1;
    }
    proof {
        assert(edges@.take(i as int) =~= edges@);
    }
    out
}

/// The grouping of one link kind from its rows of fields: `group_rows` on the ids read.
pub fn group_edges(
    edges: &Vec<(String, String)>,
    source_filter: Option<&IdSet>,
    target_filter: Option<&IdSet>,
    filter_targets: bool,
    has_max: bool,
    min: usize,
) -> (res: Vec<(u64, Vec<u64>)>)
    requires
        edges_ready(edges@),
    ensures
        groups_hold(res@, grouped_rows(edge_ids(edges@), filter_view(source_filter), filter_view(target_filter), filter_targets, has_max, min as int)),
{
    let rows = parse_edges(edges);
    group_rows(&rows, source_filter, target_filter, filter_targets, has_max, min)
}

/// One authorship: the author's field, the fields of the institutions named for it (the
/// pieces of the source column between its `;`, as `split_semicolons` gives them), and the
/// work's field.
pub struct AuthorshipRow {
    pub author: String,
    pub institutions: Vec<String>,
    pub parent_id: String,
}

/// Every field of the authorships holds an id's prefix.
pub open spec fn authorships_ready(rows: Seq<AuthorshipRow>) -> bool {
    forall|i: int| 0 <= i < rows.len() ==> {
        &&& id_field_ready((#[trigger] rows[i]).author@)
        &&& id_field_ready(rows[i].parent_id@)
        &&& forall|j: int| 0 <= j < rows[i].institutions@.len() ==> id_field_ready((#[trigger] rows[i].institutions@[j])@)
    }
}

/// The (institution, work) id pairs of one authorship.
pub open spec fn row_inst_ids(r: AuthorshipRow) -> Seq<(Option<u64>, Option<u64>)> {
    r.institutions@.map_values(|t: String| (field_id(t@), field_id(r.parent_id@)))
}

/// The (institution, work) id pairs of the authorships, in order.
pub open spec fn inst_rows(rows: Seq<AuthorshipRow>) -> Seq<(Option<u64>, Option<u64>)>
    decreases rows.len(),
{
    if rows.len() == 0 {
        Seq::empty()
    } else {
        inst_rows(rows.drop_last()) + row_inst_ids(rows.last())
    }
}

/// The (work, author) id pairs of the authorships, in order.
pub open spec fn author_rows(rows: Seq<AuthorshipRow>) -> Seq<(Option<u64>, Option<u64>)> {
    rows.map_values(|r: AuthorshipRow| (field_id(r.parent_id@), field_id(r.author@)))
}

/// The two groupings of the authorship pass, over the works that `work_filter` holds:
/// institutions with their works, each group growing only while it holds fewer than
/// `inst_cap` works, and works with all their authors.
pub fn authorship_groups(rows: &Vec<AuthorshipRow>, work_filter: &IdSet, inst_cap: usize) -> (res: (
    Vec<(u64, Vec<u64>)>,
    Vec<(u64, Vec<u64>)>,
))
    requires
        authorships_ready(rows@),
    ensures
        groups_hold(res.0@, grouped_rows(inst_rows(rows@), None, Some(id_items(*work_filter)), false, false, inst_cap as int)),
        groups_hold(res.1@, grouped_rows(author_rows(rows@), Some(id_items(*work_filter)), None, true, false, 0)),
{
    let mut inst: Vec<(Option<u64>, Option<u64>)> = Vec::new();
    let mut auth: Vec<(Option<u64>, Option<u64>)> = Vec::new();
    let mut r: usize = 0;
    while r < rows.len()
        invariant
            r <= rows@.len(),
            authorships_ready(rows@),
            inst@ == inst_rows(rows@.take(r as int)),
            auth@ == author_rows(rows@.take(r as int)),
        decreases rows@.len() - r,
    {
        let row = &rows[r];
        let w = read_id(&row.parent_id);
        let a = read_id(&row.author);
        let ghost base = inst@;
        let mut j: usize = 0;
        while j < row.institutions.len()
            invariant
                j <= row.institutions@.len(),
                *row == rows@[r as int],
                r < rows@.len(),
                authorships_ready(rows@),
                w == field_id(row.parent_id@),
                inst@ == base + row_inst_ids(*row).take(j as int),
            decreases row.institutions@.len() - j,
        {
            let t = read_id(&row.institutions[j]);
            inst.push((t, w));
            proof {
                assert(row_inst_ids(*row).take(j + 1) =~= row_inst_ids(*row).take(j as int).push((t, w)));
            }
            j += 1;
        }
        auth.push((w, a));
        proof {
            assert(row_inst_ids(*row).take(j as int) =~= row_inst_ids(*row));
            assert(rows@.take(r + 1).drop_last() =~= rows@.take(r as int));
            assert(author_rows(rows@.take(r + 1)) =~= author_rows(rows@.take(r as int)).push((w, a)));
        }
        r += 1;
    }
    proof {
        assert(rows@.take(r as int) =~= rows@);
    }
    let gi = group_rows(&inst, None, Some(work_filter), false, false, inst_cap);
    let ga = group_rows(&auth, Some(work_filter), None, true, false, 0);
    (gi, ga)
}

/// The pieces of `s` from `i` on between the separators `;`, the current one so far `cur`, as
/// `str::split` gives them.
pub open spec fn semi_pieces(s: Seq<char>, i: int, cur: Seq<char>) -> Seq<Seq<char>>
    decreases s.len() - i,
{
    if i < 0 || i >= s.len() {
        seq![cur]
    } else if s[i] == ';' {
        seq![cur] + semi_pieces(s, i + 1, Seq::empty())
    } else {
        semi_pieces(s, i + 1, cur.push(s[i]))
    }
}

/// The pieces of a list of names separated by `;`, as `str::split` gives them.
pub fn split_semicolons(s: &str) -> (res: Vec<String>)
    ensures
        res@.map_values(|t: String| t@) == semi_pieces(s@, 0, Seq::empty()),
{
    let cs = crate::text::chars_of(s);
    let mut out: Vec<String> = Vec::new();
    let mut cur: Vec<char> = Vec::new();
    let mut i: usize = 0;
    let n = cs.len();
    proof {
        assert(out@.map_values(|t: String| t@) + semi_pieces(cs@, 0, cur@) =~= semi_pieces(s@, 0, Seq::empty()));
    }
    while i < n
        invariant
            n == cs@.len(),
            cs@ == s@,
            i <= n,
            out@.map_values(|t: String| t@) + semi_pieces(cs@, i as int, cur@) == semi_pieces(s@, 0, Seq::empty()),
        decreases n - i,
    {
        let ghost before = out@.map_values(|t: String| t@);
        if cs[i] == ';' {
            let ghost cv = cur@;
            let piece = crate::text::string_from_chars(&cur);
            out.push(piece);
            cur = Vec::new();
            proof {
                assert(out@.map_values(|t: String| t@) =~= before.push(cv));
                assert(before.push(cv) + semi_pieces(cs@, i + 1, cur@) =~= before + (seq![cv] + semi_pieces(cs@, i + 1, Seq::empty())));
            }
        } else {
            cur.push(cs[i]);
        }
        i += 1;
    }
    let ghost before = out@.map_values(|t: String| t@);
    let ghost cv = cur@;
    let piece = crate::text::string_from_chars(&cur);
    out.push(piece);
    proof {
        assert(out@.map_values(|t: String| t@) =~= before.push(cv));
        assert(before + semi_pieces(cs@, i as int, cv) =~= before.push(cv));
    }
    out
}

} // verus!
