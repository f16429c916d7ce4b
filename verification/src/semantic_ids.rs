//! Semantic ids: readable slugs of names, handed out without clashes.
use vstd::prelude::*;
use crate::text::{chars_of, string_from_chars};
use crate::id_collections::{text_items, TextSet};
use crate::sorting::{be_bytes, be_bytes_exec, is_permutation, key_before, lemma_be_order, lex_lt, lists, stable_order};
use crate::common::pow256;
use crate::words::{add_break, lemma_scan_wf, query_bytes, scan, spelled, word_set, StackWordSet};

verus! {

/// Word `j` of letters `chars` cut at `breaks`.
pub open spec fn cut_word(chars: Seq<u8>, breaks: Seq<u8>, j: int) -> Seq<u8> {
    let start: int = if j == 0 { 0 } else { breaks[j - 1] as int };
    chars.subrange(start, breaks[j] as int)
}

/// The words of a name as a query sees them: lower case, transliterated to ASCII, letters only.
pub open spec fn name_words(s: Seq<char>) -> Seq<Seq<char>> {
    let (chars, breaks) = word_set(query_bytes(s));
    Seq::new(breaks.len(), |j: int| spelled(cut_word(chars, breaks, j)))
}

/// Texts joined by hyphens.
pub open spec fn hyphen_join(ws: Seq<Seq<char>>) -> Seq<char>
    decreases ws.len(),
{
    if ws.len() == 0 {
        Seq::empty()
    } else if ws.len() == 1 {
        ws[0]
    } else {
        hyphen_join(ws.drop_last()) + seq!['-'] + ws.last()
    }
}

/// Every boundary of a word set lies within its letters.
proof fn lemma_word_set_breaks(bytes: Seq<u8>)
    ensures
        forall|a: int| 0 <= a < word_set(bytes).1.len() ==> #[trigger] word_set(bytes).1[a] <= word_set(bytes).0.len(),
{
    lemma_scan_wf(bytes);
    let (chars, breaks, done) = scan(bytes);
    if !done {
        let b2 = add_break(breaks, chars.len() as u8);
        assert forall|a: int| 0 <= a < b2.len() implies #[trigger] b2[a] <= chars.len() by {
            if a < breaks.len() {
                assert(b2[a] == breaks[a]);
            }
        }
    }
}

/// The slug of a name: its words, as a query sees them, joined by hyphens.
pub fn semantify(s: &str) -> (res: String)
    ensures
        res@ == hyphen_join(name_words(s@)),
{
    let ws = StackWordSet::new(s);
    let words = ws.to_words();
    let ghost (chars, breaks) = word_set(query_bytes(s@));
    let ghost target = name_words(s@);
    proof {
        lemma_word_set_breaks(query_bytes(s@));
        assert forall|j: int| 0 <= j < breaks.len() implies #[trigger] ws.word(j) == cut_word(chars, breaks, j) by {
            assert(ws.break_array@[j] == breaks[j]);
            if j > 0 {
                assert(ws.break_array@[j - 1] == breaks[j - 1]);
                assert(breaks[j - 1] < breaks[j]);
            }
            assert(ws.word(j) =~= cut_word(chars, breaks, j));
        }
        assert(target.len() == words@.len());
    }
    let mut out: Vec<char> = Vec::new();
    let mut i: usize = 0;
    proof {
        assert(target.subrange(0, 0) =~= Seq::<Seq<char>>::empty());
    }
    while i < words.len()
        invariant
            i <= words@.len(),
            target.len() == words@.len(),
            forall|j: int| 0 <= j < words@.len() ==> #[trigger] words@[j]@ == target[j],
            out@ == hyphen_join(target.subrange(0, i as int)),
        decreases words@.len() - i,
    {
        let ghost before = out@;
        if i > 0 {
            out.push('-');
        }
        let mut w: Vec<char> = crate::text::chars_of(words[i].as_str());
        out.append(&mut w);
        proof {
            let p = target.subrange(0, i + 1);
            assert(p.drop_last() =~= target.subrange(0, i as int));
            assert(p.last() == target[i as int]);
            if i == 0 {
                assert(out@ =~= hyphen_join(p));
            } else {
                assert(out@ =~= hyphen_join(p));
            }
        }
        i += 1;
    }
    proof {
        assert(target.subrange(0, words@.len() as int) =~= target);
    }
    string_from_chars(&out)
}

/// The characters the suffixes of a taken name end in.
pub open spec fn suffix_chars() -> Seq<char> {
    seq!['2', '3', '4', '5', '6', '7', '8', '9', 'a', 'b', 'c', 'd', 'e', 'f', 'g', 'h', 'i', 'j', 'k', 'l', 'm', 'n', 'o']
}

/// The ids an entity may take, in the order it tries them: its names, then its last name with
/// each suffix.
pub open spec fn candidates(opts: Seq<Seq<char>>) -> Seq<Seq<char>> {
    opts + Seq::new(23, |i: int| opts.last() + seq!['-', suffix_chars()[i]])
}

/// The first candidate not yet taken.
pub open spec fn first_free(cands: Seq<Seq<char>>, used: Set<Seq<char>>) -> Option<Seq<char>>
    decreases cands.len(),
{
    if cands.len() == 0 {
        None
    } else if !used.contains(cands[0]) {
        Some(cands[0])
    } else {
        first_free(cands.drop_first(), used)
    }
}

/// The ids after the entities of `order` claimed theirs one after another, and the ids taken.
pub open spec fn assigned(names: Seq<Seq<Seq<char>>>, order: Seq<usize>, n_slots: nat) -> (Seq<Seq<char>>, Set<Seq<char>>)
    decreases order.len(),
{
    if order.len() == 0 {
        (Seq::new(n_slots, |i: int| Seq::<char>::empty()), Set::empty())
    } else {
        let (ids, used) = assigned(names, order.drop_last(), n_slots);
        let e = order.last() as int;
        match first_free(candidates(names[e]), used) {
            Some(c) => (ids.update(e, c), used.insert(c)),
            None => (ids, used),
        }
    }
}

/// `order` lists the entities that have names, each once, the highest work count first and,
/// among equal counts, the highest number first.
pub open spec fn by_priority(order: Seq<usize>, wcounts: Seq<usize>, names: Seq<Seq<Seq<char>>>) -> bool {
    &&& order.no_duplicates()
    &&& forall|i: int| 0 <= i < order.len() ==> (#[trigger] order[i]) < names.len() && names[order[i] as int].len() > 0
    &&& forall|e: int| 0 <= e < names.len() && names[e].len() > 0 ==> #[trigger] lists(order, e)
    &&& forall|a: int, b: int| 0 <= a < b < order.len() ==> outranks(wcounts, #[trigger] order[a], #[trigger] order[b])
}

/// Entity `x` claims before `y`: a higher work count, or an equal one and a higher number.
pub open spec fn outranks(wcounts: Seq<usize>, x: usize, y: usize) -> bool {
    wcounts[x as int] > wcounts[y as int] || (wcounts[x as int] == wcounts[y as int] && x > y)
}

/// The names as characters.
pub open spec fn names_view(names: Seq<Vec<String>>) -> Seq<Seq<Seq<char>>> {
    names.map_values(|v: Vec<String>| v@.map_values(|t: String| t@))
}

fn push_str(out: &mut Vec<char>, s: &str)
    ensures
        final(out)@ == old(out)@ + s@,
{
    let mut cs = chars_of(s);
    out.append(&mut cs);
}

/// The last name of an entity with suffix `k`: its candidate after all its names.
fn suffix_candidate(opts: &Vec<String>, k: usize) -> (res: String)
    requires
        opts@.len() > 0,
        k < 23,
    ensures
        res@ == candidates(opts@.map_values(|t: String| t@))[opts@.len() + k],
{
    let ghost ov = opts@.map_values(|t: String| t@);
    let last = &opts[opts.len() - 1];
    let mut out = chars_of(last.as_str());
    let suffixes = chars_of("23456789abcdefghijklmno");
    proof {
        reveal_strlit("23456789abcdefghijklmno");
        assert(suffixes@ =~= suffix_chars());
    }
    out.push('-');
    out.push(suffixes[k]);
    proof {
        assert(ov.last() == last@);
        assert(out@ =~= ov.last() + seq!['-', suffix_chars()[k as int]]);
    }
    string_from_chars(&out)
}

/// The ids of the entities: by priority, the highest work count first, each takes the first
/// of its names that no entity before it took, or, when all are taken, its last name with the
/// first free suffix. An entity with no names, or with nothing free, keeps an empty id.
pub fn assign_semantic_ids(wcounts: &[usize], names: &[Vec<String>], n_slots: usize) -> (res: Vec<String>)
    requires
        forall|e: int| 0 <= e < names@.len() && (#[trigger] names@[e])@.len() > 0 ==> e < wcounts@.len() && e < n_slots,
    ensures
        exists|order: Seq<usize>| by_priority(order, wcounts@, names_view(names@))
            && res@.map_values(|t: String| t@) == assigned(names_view(names@), order, n_slots as nat).0,
{
    let ghost nv = names_view(names@);
    // the entities with names, the highest number first, with their priority keys
    let mut cand: Vec<usize> = Vec::new();
    let mut keys: Vec<Vec<u8>> = Vec::new();
    let mut e = names.len();
    while e > 0
        invariant
            e <= names@.len(),
            nv == names_view(names@),
            forall|q: int| 0 <= q < names@.len() && (#[trigger] names@[q])@.len() > 0 ==> q < wcounts@.len() && q < n_slots,
            cand@.len() == keys@.len(),
            forall|i: int| 0 <= i < cand@.len() ==> e <= #[trigger] cand@[i] < names@.len() && names@[cand@[i] as int]@.len() > 0,
            forall|i: int, j: int| 0 <= i < j < cand@.len() ==> cand@[i] > cand@[j],
            forall|q: int| e <= q < names@.len() && (#[trigger] names@[q])@.len() > 0 ==> lists(cand@, q),
            forall|i: int| 0 <= i < cand@.len() ==> (#[trigger] keys@[i])@ == be_bytes((u64::MAX - wcounts@[cand@[i] as int]) as nat, 8),
        decreases e,
    {
        e -= 1;
        if names[e].len() > 0 {
            let w = wcounts[e] as u64;
            let ghost before = cand@;
            cand.push(e);
            keys.push(be_bytes_exec(u64::MAX - w, 8));
            proof {
                assert forall|q: int| e <= q < names@.len() && (#[trigger] names@[q])@.len() > 0 implies lists(cand@, q) by {
                    if q == e {
                        assert(cand@[before.len() as int] == e);
                    } else {
                        let a = choose|a: int| 0 <= a < before.len() && before[a] == q;
                        assert(cand@[a] == q);
                    }
                }
            }
        } else {
            proof {
                assert forall|q: int| e <= q < names@.len() && (#[trigger] names@[q])@.len() > 0 implies lists(cand@, q) by {
                    if q == e {
                        assert(false);
                    }
                }
            }
        }
    }
    let ghost ks = keys@.map_values(|k: Vec<u8>| k@);
    let order = stable_order(&keys);
    let mut proc: Vec<usize> = Vec::new();
    let mut t: usize = 0;
    while t < order.len()
        invariant
            is_permutation(order@, keys@.len()),
            cand@.len() == keys@.len(),
            t <= order@.len(),
            proc@.len() == t,
            forall|i: int| 0 <= i < t ==> #[trigger] proc@[i] == cand@[order@[i] as int],
        decreases order@.len() - t,
    {
        proof {
            assert(order@[t as int] < keys@.len());
        }
        proc.push(cand[order[t]]);
        t += 1;
    }
    proof {
        assert(by_priority(proc@, wcounts@, nv)) by {
            assert forall|i: int| 0 <= i < proc@.len() implies (#[trigger] proc@[i]) < nv.len() && nv[proc@[i] as int].len() > 0 by {
                assert(order@[i] < cand@.len());
                assert(names@[cand@[order@[i] as int] as int]@.len() > 0);
            }
            assert forall|a: int, b: int| 0 <= a < b < proc@.len() implies #[trigger] proc@[a] != #[trigger] proc@[b] by {
                assert(order@[a] != order@[b]);
                let x = order@[a] as int;
                let y = order@[b] as int;
                assert(x < cand@.len() && y < cand@.len());
                if x < y {
                    assert(cand@[x] > cand@[y]);
                } else {
                    assert(cand@[y] > cand@[x]);
                }
            }
            assert forall|q: int| 0 <= q < nv.len() && nv[q].len() > 0 implies #[trigger] lists(proc@, q) by {
                assert(names@[q]@.len() > 0);
                assert(lists(cand@, q));
                let c = choose|c: int| 0 <= c < cand@.len() && cand@[c] == q;
                assert(crate::sorting::lists(order@, c));
                let a = choose|a: int| 0 <= a < order@.len() && order@[a] == c;
                assert(proc@[a] == q);
            }
            assert forall|a: int, b: int| 0 <= a < b < proc@.len() implies outranks(wcounts@, #[trigger] proc@[a], #[trigger] proc@[b]) by {
                let pa = order@[a] as int;
                let pb = order@[b] as int;
                assert(key_before(ks, pa, pb));
                let x = cand@[pa] as int;
                let y = cand@[pb] as int;
                let ka = (u64::MAX - wcounts@[x]) as nat;
                let kb = (u64::MAX - wcounts@[y]) as nat;
                assert(ks[pa] == be_bytes(ka, 8));
                assert(ks[pb] == be_bytes(kb, 8));
                assert(pow256(8) == 0x1_0000_0000_0000_0000) by {
                    reveal_with_fuel(pow256, 9);
                }
                lemma_be_order(ka, kb, 8);
                if pa < pb {
                    assert(cand@[pa] > cand@[pb]);
                } else {
                    assert(cand@[pb] > cand@[pa]);
                }
            }
        }
    }
    // every id empty at first
    let mut ids: Vec<String> = Vec::new();
    let mut z: usize = 0;
    while z < n_slots
        invariant
            z <= n_slots,
            ids@.len() == z,
            forall|q: int| 0 <= q < z ==> (#[trigger] ids@[q])@ == Seq::<char>::empty(),
        decreases n_slots - z,
    {
        ids.push(String::new());
        z += 1;
    }
    let mut taken = TextSet::new();
    let mut p: usize = 0;
    proof {
        assert(ids@.map_values(|t: String| t@) =~= assigned(nv, proc@.subrange(0, 0), n_slots as nat).0);
        assert(text_items(taken) =~= assigned(nv, proc@.subrange(0, 0), n_slots as nat).1);
    }
    while p < proc.len()
        invariant
            nv == names_view(names@),
            by_priority(proc@, wcounts@, nv),
            forall|q: int| 0 <= q < names@.len() && (#[trigger] names@[q])@.len() > 0 ==> q < wcounts@.len() && q < n_slots,
            p <= proc@.len(),
            ids@.len() == n_slots,
            ids@.map_values(|t: String| t@) == assigned(nv, proc@.subrange(0, p as int), n_slots as nat).0,
            text_items(taken) == assigned(nv, proc@.subrange(0, p as int), n_slots as nat).1,
        decreases proc@.len() - p,
    {
        let eid = proc[p];
        proof {
            assert(proc@[p as int] < nv.len());
            assert(nv[eid as int].len() > 0);
            assert(names@[eid as int]@.len() > 0);
        }
        let opts = &names[eid];
        let ghost ov = opts@.map_values(|t: String| t@);
        let ghost cands = candidates(ov);
        let ghost used = text_items(taken);
        proof {
            assert(ov == nv[eid as int]);
            let pr = proc@.subrange(0, p + 1);
            assert(pr.drop_last() =~= proc@.subrange(0, p as int));
            assert(pr.last() == eid);
        }
        let mut chosen: Option<String> = None;
        let mut ci: usize = 0;
        proof {
            assert(cands.subrange(0, cands.len() as int) =~= cands);
        }
        while ci < opts.len()
            invariant_except_break
                opts@.len() > 0,
                ov == opts@.map_values(|t: String| t@),
                cands == candidates(ov),
                cands.len() == opts@.len() + 23,
                used == text_items(taken),
                ci <= opts@.len(),
                chosen is None,
                first_free(cands, used) == first_free(cands.subrange(ci as int, cands.len() as int), used),
            ensures
                chosen is None ==> ci == opts@.len() && first_free(cands, used) == first_free(cands.subrange(ci as int, cands.len() as int), used),
                chosen matches Some(c) ==> first_free(cands, used) == Some(c@),
            decreases opts@.len() - ci,
        {
            let c = opts[ci].clone();
            proof {
                let rest = cands.subrange(ci as int, cands.len() as int);
                assert(rest[0] == cands[ci as int]);
                assert(rest.drop_first() =~= cands.subrange(ci + 1, cands.len() as int));
            }
            if !taken.contains(&c) {
                chosen = Some(c);
                break;
            }
            ci += 1;
        }
        let mut k: usize = 0;
        if chosen.is_none() {
            while k < 23
                invariant_except_break
                    opts@.len() > 0,
                    ov == opts@.map_values(|t: String| t@),
                    cands == candidates(ov),
                    cands.len() == opts@.len() + 23,
                    used == text_items(taken),
                    ci == opts@.len(),
                    k <= 23,
                    chosen is None,
                    first_free(cands, used) == first_free(cands.subrange(ci + k, cands.len() as int), used),
                ensures
                    chosen is None ==> first_free(cands, used) is None,
                    chosen matches Some(c) ==> first_free(cands, used) == Some(c@),
                decreases 23 - k,
            {
                let c = suffix_candidate(opts, k);
                proof {
                    let rest = cands.subrange(ci + k, cands.len() as int);
                    assert(rest[0] == cands[ci + k]);
                    assert(rest.drop_first() =~= cands.subrange(ci + k + 1, cands.len() as int));
                }
                if !taken.contains(&c) {
                    chosen = Some(c);
                    break;
                }
                k += 1;
                proof {
                    if k == 23 {
                        assert(cands.subrange(ci + k, cands.len() as int).len() == 0);
                    }
                }
            }
        }
        match chosen {
            Some(c) => {
                let ghost before = ids@;
                let ghost cv = c@;
                taken.insert(c.clone());
                ids.set(eid, c);
                proof {
                    assert(ids@.map_values(|t: String| t@) =~= before.map_values(|t: String| t@).update(eid as int, cv));
                }
            },
            None => {},
        }
        p += 1;
    }
    proof {
        assert(proc@.subrange(0, proc@.len() as int) =~= proc@);
    }
    ids
}

proof fn lemma_first_free(cands: Seq<Seq<char>>, used: Set<Seq<char>>)
    ensures
        first_free(cands, used) matches Some(c) ==> !used.contains(c),
    decreases cands.len(),
{
    if cands.len() > 0 && used.contains(cands[0]) {
        lemma_first_free(cands.drop_first(), used);
    }
}

proof fn lemma_assigned_distinct(names: Seq<Seq<Seq<char>>>, order: Seq<usize>, n_slots: nat)
    requires
        order.no_duplicates(),
        forall|i: int| 0 <= i < order.len() ==> (#[trigger] order[i]) < n_slots,
    ensures
        assigned(names, order, n_slots).0.len() == n_slots,
        forall|k: int| 0 <= k < n_slots && (#[trigger] assigned(names, order, n_slots).0[k]).len() > 0
            ==> assigned(names, order, n_slots).1.contains(assigned(names, order, n_slots).0[k]),
        forall|k: int| 0 <= k < n_slots && !order.contains(k as usize) ==> (#[trigger] assigned(names, order, n_slots).0[k]).len() == 0,
        forall|a: int, b: int| 0 <= a < b < n_slots && (#[trigger] assigned(names, order, n_slots).0[a]).len() > 0
            ==> assigned(names, order, n_slots).0[a] != #[trigger] assigned(names, order, n_slots).0[b],
    decreases order.len(),
{
    if order.len() > 0 {
        let front = order.drop_last();
        assert forall|i: int| 0 <= i < front.len() implies (#[trigger] front[i]) < n_slots by {
            assert(front[i] == order[i]);
        }
        assert(front.no_duplicates()) by {
            assert forall|i: int, j: int| 0 <= i < j < front.len() implies front[i] != front[j] by {
                assert(front[i] == order[i] && front[j] == order[j]);
            }
        }
        lemma_assigned_distinct(names, front, n_slots);
        let (ids, used) = assigned(names, front, n_slots);
        let e = order.last() as int;
        assert(e < n_slots);
        assert(!front.contains(e as usize)) by {
            if front.contains(e as usize) {
                let i = choose|i: int| 0 <= i < front.len() && front[i] == e as usize;
                assert(order[i] == order[order.len() - 1]);
            }
        }
        assert(ids[e].len() == 0);
        lemma_first_free(candidates(names[e]), used);
        assert forall|k: int| 0 <= k < n_slots && !(#[trigger] order.contains(k as usize)) implies !front.contains(k as usize) && k != e by {
            if front.contains(k as usize) {
                let i = choose|i: int| 0 <= i < front.len() && front[i] == k as usize;
                assert(order[i] == front[i]);
            }
            assert(order[order.len() - 1] == e as usize);
        }
    }
}

/// No two entities end with the same id, but for the empty id of those left without one:
/// each takes a name that none before it took.
pub proof fn law_semantic_ids_distinct(names: Seq<Seq<Seq<char>>>, order: Seq<usize>, n_slots: nat, a: int, b: int)
    requires
        order.no_duplicates(),
        forall|i: int| 0 <= i < order.len() ==> (#[trigger] order[i]) < n_slots,
        0 <= a < n_slots,
        0 <= b < n_slots,
        a != b,
        assigned(names, order, n_slots).0[a].len() > 0,
    ensures
        assigned(names, order, n_slots).0[a] != assigned(names, order, n_slots).0[b],
{
    lemma_assigned_distinct(names, order, n_slots);
    if b < a {
        let ids = assigned(names, order, n_slots).0;
        if ids[b].len() > 0 {
            assert(ids[b] != ids[a]);
        }
    }
}

/// The first free candidate is the first candidate not taken.
proof fn lemma_first_free_at(cands: Seq<Seq<char>>, used: Set<Seq<char>>, i: int)
    requires
        0 <= i < cands.len(),
        !used.contains(cands[i]),
        forall|j: int| 0 <= j < i ==> used.contains(#[trigger] cands[j]),
    ensures
        first_free(cands, used) == Some(cands[i]),
    decreases i,
{
    if i > 0 {
        let rest = cands.drop_first();
        assert(used.contains(cands[0]));
        assert forall|j: int| 0 <= j < i - 1 implies used.contains(#[trigger] rest[j]) by {
            assert(rest[j] == cands[j + 1]);
        }
        assert(rest[i - 1] == cands[i]);
        lemma_first_free_at(rest, used, i - 1);
    }
}

/// When an entity claims its id and its names before the `i`-th are all taken, but not that
/// one, it takes its `i`-th name.
pub proof fn law_semantic_id_first_free_name(names: Seq<Seq<Seq<char>>>, order: Seq<usize>, n_slots: nat, i: int)
    requires
        order.len() > 0,
        forall|q: int| 0 <= q < order.len() ==> (#[trigger] order[q]) < n_slots,
        0 <= i < names[order.last() as int].len(),
        !assigned(names, order.drop_last(), n_slots).1.contains(names[order.last() as int][i]),
        forall|j: int| 0 <= j < i ==> assigned(names, order.drop_last(), n_slots).1.contains(#[trigger] names[order.last() as int][j]),
    ensures
        assigned(names, order, n_slots).0[order.last() as int] == names[order.last() as int][i],
{
    let e = order.last() as int;
    let opts = names[e];
    let (ids, used) = assigned(names, order.drop_last(), n_slots);
    lemma_assigned_len(names, order.drop_last(), n_slots);
    let c = candidates(opts);
    assert forall|j: int| 0 <= j < i implies used.contains(#[trigger] c[j]) by {
        assert(c[j] == opts[j]);
    }
    assert(c[i] == opts[i]);
    lemma_first_free_at(c, used, i);
}

/// A name followed by `-` and the `j`-th suffix character, of `2`..`9` then `a`..`o`.
pub open spec fn suffixed(name: Seq<char>, j: int) -> Seq<char> {
    name + seq!['-', seq!['2', '3', '4', '5', '6', '7', '8', '9', 'a', 'b', 'c', 'd', 'e', 'f', 'g', 'h', 'i', 'j', 'k', 'l', 'm', 'n', 'o'][j]]
}

/// When an entity claims its id and all its names are taken, it takes its last name followed
/// by `-` and the first suffix character, of `2`..`9` then `a`..`o`, that gives a free id.
pub proof fn law_semantic_id_suffixed_last_name(names: Seq<Seq<Seq<char>>>, order: Seq<usize>, n_slots: nat, k: int)
    requires
        order.len() > 0,
        forall|q: int| 0 <= q < order.len() ==> (#[trigger] order[q]) < n_slots,
        names[order.last() as int].len() > 0,
        0 <= k < 23,
        forall|j: int| 0 <= j < names[order.last() as int].len() ==> assigned(names, order.drop_last(), n_slots).1.contains(#[trigger] names[order.last() as int][j]),
        !assigned(names, order.drop_last(), n_slots).1.contains(
            suffixed(names[order.last() as int][names[order.last() as int].len() - 1], k),
        ),
        forall|j: int| 0 <= j < k ==> assigned(names, order.drop_last(), n_slots).1.contains(
            #[trigger] suffixed(names[order.last() as int][names[order.last() as int].len() - 1], j),
        ),
    ensures
        assigned(names, order, n_slots).0[order.last() as int] == suffixed(names[order.last() as int][names[order.last() as int].len() - 1], k),
{
    let e = order.last() as int;
    let opts = names[e];
    let last = opts[opts.len() - 1];
    let sc = seq!['2', '3', '4', '5', '6', '7', '8', '9', 'a', 'b', 'c', 'd', 'e', 'f', 'g', 'h', 'i', 'j', 'k', 'l', 'm', 'n', 'o'];
    assert(sc =~= suffix_chars());
    let (ids, used) = assigned(names, order.drop_last(), n_slots);
    lemma_assigned_len(names, order.drop_last(), n_slots);
    let c = candidates(opts);
    let n = opts.len() as int;
    assert forall|j: int| 0 <= j < n + k implies used.contains(#[trigger] c[j]) by {
        if j < n {
            assert(c[j] == opts[j]);
        } else {
            assert(c[j] == last + seq!['-', sc[j - n]]);
            assert(c[j] == suffixed(last, j - n));
        }
    }
    assert(c[n + k] == suffixed(last, k));
    lemma_first_free_at(c, used, n + k);
}

proof fn lemma_assigned_len(names: Seq<Seq<Seq<char>>>, order: Seq<usize>, n_slots: nat)
    requires
        forall|i: int| 0 <= i < order.len() ==> (#[trigger] order[i]) < n_slots,
    ensures
        assigned(names, order, n_slots).0.len() == n_slots,
    decreases order.len(),
{
    if order.len() > 0 {
        assert forall|i: int| 0 <= i < order.drop_last().len() implies (#[trigger] order.drop_last()[i]) < n_slots by {
            assert(order.drop_last()[i] == order[i]);
        }
        lemma_assigned_len(names, order.drop_last(), n_slots);
        assert(order[order.len() - 1] < n_slots);
    }
}

} // verus!
