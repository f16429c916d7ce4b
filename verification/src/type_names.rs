//! Short names of Rust types for generated code: the path of each generic argument cleaned in
//! turn, `alloc` and this crate's own paths cut to their last part, and other paths of more
//! than one part rooted at `crate`.
use vstd::prelude::*;
use crate::text::{chars_of, string_from_chars};

verus! {

/// The state of a scan through a type path: `<` and `>` seen, the text before the generic
/// arguments, and the text of the arguments.
pub struct Scan {
    pub lc: nat,
    pub rc: nat,
    pub pre: Seq<char>,
    pub sub: Seq<char>,
}

/// A character kept in the text before the arguments while no `<` was seen, else in the
/// arguments.
pub open spec fn put(st: Scan, c: char) -> Scan {
    if st.lc == 0 {
        Scan { pre: st.pre.push(c), ..st }
    } else {
        Scan { sub: st.sub.push(c), ..st }
    }
}

/// One character of the scan: the first `<` and the `>` that closes it are dropped.
pub open spec fn step(st: Scan, c: char) -> Scan {
    if c == '<' {
        let s2 = Scan { lc: st.lc + 1, ..st };
        if s2.lc == 1 {
            s2
        } else {
            put(s2, c)
        }
    } else if c == '>' {
        let s2 = Scan { rc: st.rc + 1, ..st };
        if s2.lc == s2.rc {
            s2
        } else {
            put(s2, c)
        }
    } else {
        put(st, c)
    }
}

/// The scan after the characters.
pub open spec fn scan_all(st: Scan, cs: Seq<char>) -> Scan
    decreases cs.len(),
{
    if cs.len() == 0 {
        st
    } else {
        scan_all(step(st, cs[0]), cs.drop_first())
    }
}

/// The pieces of `s` from `i` on between the separators `::`, the current one so far `cur`,
/// as `str::split` gives them.
pub open spec fn split_from(s: Seq<char>, i: int, cur: Seq<char>) -> Seq<Seq<char>>
    decreases s.len() - i,
{
    if i < 0 || i >= s.len() {
        seq![cur]
    } else if i + 1 < s.len() && s[i] == ':' && s[i + 1] == ':' {
        seq![cur] + split_from(s, i + 2, Seq::empty())
    } else {
        split_from(s, i + 1, cur.push(s[i]))
    }
}

/// The pieces of a path.
pub open spec fn pieces(s: Seq<char>) -> Seq<Seq<char>> {
    split_from(s, 0, Seq::empty())
}

/// The element that starts at piece `k`: the pieces up to the one that closes every `<`,
/// joined by `::` again where inside the arguments; its text before the arguments, its
/// arguments, and the piece after it. Nothing where the pieces end first.
pub open spec fn group(ps: Seq<Seq<char>>, k: int, st: Scan) -> Option<(Seq<char>, Seq<char>, int)>
    decreases ps.len() - k,
{
    if k < 0 || k >= ps.len() {
        None
    } else {
        let s2 = scan_all(st, ps[k]);
        if s2.lc == s2.rc {
            Some((s2.pre, s2.sub, k + 1))
        } else if k + 1 < ps.len() {
            group(ps, k + 1, Scan { sub: s2.sub + seq![':', ':'], ..s2 })
        } else {
            None
        }
    }
}

/// A fresh scan.
pub open spec fn fresh() -> Scan {
    Scan { lc: 0, rc: 0, pre: Seq::empty(), sub: Seq::empty() }
}

/// The blocks joined by `::`.
pub open spec fn joined(bs: Seq<Seq<char>>) -> Seq<char>
    decreases bs.len(),
{
    if bs.len() == 0 {
        Seq::empty()
    } else if bs.len() == 1 {
        bs[0]
    } else {
        joined(bs.drop_last()) + seq![':', ':'] + bs.last()
    }
}

/// The cleaned name of a path; nothing where a `[` is not closed at the end or a `<` is not
/// closed at all.
pub open spec fn cleaned(s: Seq<char>) -> Option<Seq<char>>
    decreases s.len(), 1int, 0int,
{
    if s.len() > 0 && s[0] == '[' {
        if s.last() != ']' {
            None
        } else {
            match cleaned(s.drop_first()) {
                Some(r) => Some(seq!['['] + r),
                None => None,
            }
        }
    } else {
        match blocks(s, pieces(s), 0) {
            None => None,
            Some(bs) => {
                if bs.len() == 0 {
                    None
                } else if bs[0] == "alloc"@ || bs[0] == "dmove"@ {
                    Some(bs.last())
                } else if bs.len() > 1 && bs[0] != "std"@ {
                    Some(joined(bs.update(0, "crate"@)))
                } else {
                    Some(joined(bs))
                }
            },
        }
    }
}

/// The cleaned elements of the pieces of `s` from `k` on.
pub open spec fn blocks(s: Seq<char>, ps: Seq<Seq<char>>, k: int) -> Option<Seq<Seq<char>>>
    decreases s.len(), 0int, ps.len() - k,
{
    if k < 0 || k >= ps.len() {
        Some(Seq::empty())
    } else {
        match group(ps, k, fresh()) {
            None => None,
            Some((pre, sub, nk)) => {
                let elem = if sub.len() > 0 {
                    if sub.len() < s.len() {
                        match cleaned(sub) {
                            Some(c) => Some(pre + seq!['<'] + c + seq!['>']),
                            None => None,
                        }
                    } else {
                        None
                    }
                } else {
                    Some(pre)
                };
                match elem {
                    None => None,
                    Some(el) => {
                        let next = if k < nk && nk <= ps.len() { nk } else { ps.len() as int };
                        match blocks(s, ps, next) {
                            Some(rest) => Some(seq![el] + rest),
                            None => None,
                        }
                    },
                }
            },
        }
    }
}

/// A scan as it runs.
pub struct ScanState {
    pub lc: usize,
    pub rc: usize,
    pub pre: Vec<char>,
    pub sub: Vec<char>,
}

impl View for ScanState {
    type V = Scan;

    open spec fn view(&self) -> Scan {
        Scan { lc: self.lc as nat, rc: self.rc as nat, pre: self.pre@, sub: self.sub@ }
    }
}

/// The pieces of a path as text.
fn split_pieces(cs: &Vec<char>) -> (res: Vec<Vec<char>>)
    ensures
        res@.map_values(|v: Vec<char>| v@) == pieces(cs@),
{
    let mut out: Vec<Vec<char>> = Vec::new();
    let mut cur: Vec<char> = Vec::new();
    let mut i: usize = 0;
    let n = cs.len();
    proof {
        assert(out@.map_values(|v: Vec<char>| v@) + split_from(cs@, 0, cur@) =~= pieces(cs@));
    }
    while i < n
        invariant
            n == cs@.len(),
            i <= n,
            out@.map_values(|v: Vec<char>| v@) + split_from(cs@, i as int, cur@) == pieces(cs@),
        decreases n - i,
    {
        let ghost before = out@.map_values(|v: Vec<char>| v@);
        if i + 1 < n && cs[i] == ':' && cs[i + 1] == ':' {
            let ghost cv = cur@;
            let done = cur;
            out.push(done);
            cur = Vec::new();
            proof {
                assert(out@.map_values(|v: Vec<char>| v@) =~= before.push(cv));
                assert(before + split_from(cs@, i as int, cv) == before + (seq![cv] + split_from(cs@, i + 2, Seq::empty())));
                assert(before.push(cv) + split_from(cs@, i + 2, cur@) =~= before + (seq![cv] + split_from(cs@, i + 2, Seq::empty())));
            }
            i += 2;
        } else {
            cur.push(cs[i]);
            i += 1;
        }
    }
    let ghost before = out@.map_values(|v: Vec<char>| v@);
    let ghost cv = cur@;
    out.push(cur);
    proof {
        assert(out@.map_values(|v: Vec<char>| v@) =~= before.push(cv));
        assert(before + split_from(cs@, i as int, cv) =~= before.push(cv));
    }
    out
}

/// The characters of all pieces.
pub open spec fn total_len(ps: Seq<Seq<char>>) -> nat
    decreases ps.len(),
{
    if ps.len() == 0 {
        0
    } else {
        total_len(ps.drop_last()) + ps.last().len()
    }
}

proof fn lemma_total_len_prefix(ps: Seq<Seq<char>>, j: int)
    requires
        0 <= j <= ps.len(),
    ensures
        total_len(ps.take(j)) <= total_len(ps),
    decreases ps.len() - j,
{
    if j < ps.len() {
        lemma_total_len_prefix(ps, j + 1);
        assert(ps.take(j + 1).drop_last() =~= ps.take(j));
    } else {
        assert(ps.take(j) =~= ps);
    }
}

proof fn lemma_total_len_push(ps: Seq<Seq<char>>, v: Seq<char>)
    ensures
        total_len(ps.push(v)) == total_len(ps) + v.len(),
{
    assert(ps.push(v).drop_last() =~= ps);
}

proof fn lemma_total_len_concat(a: Seq<Seq<char>>, b: Seq<Seq<char>>)
    ensures
        total_len(a + b) == total_len(a) + total_len(b),
    decreases b.len(),
{
    if b.len() == 0 {
        assert(a + b =~= a);
    } else {
        lemma_total_len_concat(a, b.drop_last());
        assert((a + b).drop_last() =~= a + b.drop_last());
    }
}

proof fn lemma_split_total(s: Seq<char>, i: int, cur: Seq<char>)
    requires
        0 <= i <= s.len(),
    ensures
        total_len(split_from(s, i, cur)) <= cur.len() + (s.len() - i),
    decreases s.len() - i,
{
    if i >= s.len() {
        assert(split_from(s, i, cur) == seq![cur]);
        lemma_total_len_push(Seq::empty(), cur);
        assert(seq![cur] =~= Seq::<Seq<char>>::empty().push(cur));
    } else if i + 1 < s.len() && s[i] == ':' && s[i + 1] == ':' {
        lemma_split_total(s, i + 2, Seq::empty());
        lemma_total_len_concat(seq![cur], split_from(s, i + 2, Seq::empty()));
        lemma_total_len_push(Seq::empty(), cur);
        assert(seq![cur] =~= Seq::<Seq<char>>::empty().push(cur));
    } else {
        lemma_split_total(s, i + 1, cur.push(s[i]));
    }
}

/// The scan after the characters of one piece.
fn scan_piece(st: &mut ScanState, piece: &Vec<char>)
    requires
        old(st).lc + old(st).rc + piece@.len() <= usize::MAX,
    ensures
        final(st)@ == scan_all(old(st)@, piece@),
        final(st).lc + final(st).rc <= old(st).lc + old(st).rc + piece@.len(),
{
    let mut i: usize = 0;
    proof {
        assert(piece@.subrange(0, piece@.len() as int) =~= piece@);
    }
    while i < piece.len()
        invariant
            i <= piece@.len(),
            st.lc + st.rc <= old(st).lc + old(st).rc + i,
            old(st).lc + old(st).rc + piece@.len() <= usize::MAX,
            scan_all(old(st)@, piece@) == scan_all(st@, piece@.subrange(i as int, piece@.len() as int)),
        decreases piece@.len() - i,
    {
        let c = piece[i];
        let ghost s0 = st@;
        proof {
            let rest = piece@.subrange(i as int, piece@.len() as int);
            assert(rest[0] == c);
            assert(rest.drop_first() =~= piece@.subrange(i + 1, piece@.len() as int));
        }
        if c == '<' {
            st.lc += 1;
            if st.lc != 1 {
                if st.lc == 0 {
                    st.pre.push(c);
                } else {
                    st.sub.push(c);
                }
            }
        } else if c == '>' {
            st.rc += 1;
            if st.lc != st.rc {
                if st.lc == 0 {
                    st.pre.push(c);
                } else {
                    st.sub.push(c);
                }
            }
        } else {
            if st.lc == 0 {
                st.pre.push(c);
            } else {
                st.sub.push(c);
            }
        }
        proof {
            assert(st@ =~~= step(s0, c));
        }
        i += 1;
    }
}

/// The element that starts at piece `k`: its text before the arguments, its arguments, and
/// the piece after it.
fn group_exec(ps: &Vec<Vec<char>>, k: usize) -> (res: Option<(Vec<char>, Vec<char>, usize)>)
    requires
        total_len(ps@.map_values(|v: Vec<char>| v@)) <= usize::MAX,
    ensures
        match res {
            Some((pre, sub, nk)) => group(ps@.map_values(|v: Vec<char>| v@), k as int, fresh()) == Some((pre@, sub@, nk as int)),
            None => group(ps@.map_values(|v: Vec<char>| v@), k as int, fresh()) is None,
        },
{
    let ghost pv = ps@.map_values(|v: Vec<char>| v@);
    let mut st = ScanState { lc: 0, rc: 0, pre: Vec::new(), sub: Vec::new() };
    let mut j = k;
    let n = ps.len();
    proof {
        assert(st@ =~~= fresh());
    }
    if j >= n {
        return None;
    }
    loop
        invariant
            n == ps@.len(),
            pv == ps@.map_values(|v: Vec<char>| v@),
            total_len(pv) <= usize::MAX,
            j < ps@.len(),
            st.lc + st.rc <= total_len(pv.take(j as int)),
            group(pv, k as int, fresh()) == group(pv, j as int, st@),
        decreases ps@.len() - j,
    {
        proof {
            lemma_total_len_prefix(pv, j + 1);
            assert(pv.take(j + 1) =~= pv.take(j as int).push(pv[j as int]));
            lemma_total_len_push(pv.take(j as int), pv[j as int]);
            assert(pv[j as int] == ps@[j as int]@);
        }
        scan_piece(&mut st, &ps[j]);
        if st.lc == st.rc {
            return Some((st.pre, st.sub, j + 1));
        }
        if j + 1 >= n {
            return None;
        }
        let ghost s2 = st@;
        st.sub.push(':');
        st.sub.push(':');
        proof {
            assert(st.sub@ =~= s2.sub + seq![':', ':']);
            assert(st@ =~~= Scan { sub: s2.sub + seq![':', ':'], ..s2 });
        }
        j += 1;
    }
}

/// Whether two character sequences are the same.
fn chars_eq(a: &Vec<char>, b: &Vec<char>) -> (res: bool)
    ensures
        res == (a@ == b@),
{
    if a.len() != b.len() {
        return false;
    }
    let mut i: usize = 0;
    while i < a.len()
        invariant
            a@.len() == b@.len(),
            i <= a@.len(),
            forall|j: int| 0 <= j < i ==> a@[j] == b@[j],
        decreases a@.len() - i,
    {
        if a[i] != b[i] {
            return false;
        }
        i += 1;
    }
    proof {
        assert(a@ =~= b@);
    }
    true
}

/// The blocks joined by `::`.
fn join_blocks(bs: &Vec<Vec<char>>) -> (res: Vec<char>)
    ensures
        res@ == joined(bs@.map_values(|v: Vec<char>| v@)),
{
    let ghost bv = bs@.map_values(|v: Vec<char>| v@);
    let mut out: Vec<char> = Vec::new();
    let mut i: usize = 0;
    proof {
        assert(bv.take(0) =~= Seq::<Seq<char>>::empty());
    }
    while i < bs.len()
        invariant
            bv == bs@.map_values(|v: Vec<char>| v@),
            i <= bs@.len(),
            out@ == joined(bv.take(i as int)),
        decreases bs@.len() - i,
    {
        let ghost before = out@;
        if i > 0 {
            out.push(':');
            out.push(':');
        }
        let ghost mid = out@;
        let piece = &bs[i];
        let mut j: usize = 0;
        while j < piece.len()
            invariant
                j <= piece@.len(),
                out@ == mid + piece@.subrange(0, j as int),
            decreases piece@.len() - j,
        {
            out.push(piece[j]);
            proof {
                assert(out@ =~= mid + piece@.subrange(0, j + 1));
            }
            j += 1;
        }
        proof {
            assert(piece@.subrange(0, piece@.len() as int) =~= piece@);
            assert(bv[i as int] == piece@);
            assert(bv.take(i + 1).drop_last() =~= bv.take(i as int));
            assert(bv.take(i + 1).last() == bv[i as int]);
            if i == 0 {
                assert(before =~= Seq::<char>::empty());
                assert(out@ =~= bv.take(1)[0]);
            } else {
                assert(mid =~= before + seq![':', ':']);
            }
        }
        i += 1;
    }
    proof {
        assert(bv.take(bs@.len() as int) =~= bv);
    }
    out
}

/// The characters of `s` after the first.
fn tail_chars(s: &Vec<char>) -> (res: Vec<char>)
    requires
        s@.len() > 0,
    ensures
        res@ == s@.drop_first(),
{
    let mut out: Vec<char> = Vec::new();
    let mut i: usize = 1;
    while i < s.len()
        invariant
            1 <= i <= s@.len(),
            out@ == s@.subrange(1, i as int),
        decreases s@.len() - i,
    {
        out.push(s[i]);
        proof {
            assert(out@ =~= s@.subrange(1, i + 1));
        }
        i += 1;
    }
    proof {
        assert(out@ =~= s@.drop_first());
    }
    out
}

/// The cleaned name of the path `s`, where it has one.
fn clean_chars(s: &Vec<char>) -> (res: Option<Vec<char>>)
    ensures
        match res {
            Some(r) => cleaned(s@) == Some(r@),
            None => cleaned(s@) is None,
        },
    decreases s@.len(),
{
    let n = s.len();
    if n > 0 && s[0] == '[' {
        if s[n - 1] != ']' {
            return None;
        }
        let rest = tail_chars(s);
        return match clean_chars(&rest) {
            Some(r) => {
                let mut out: Vec<char> = vec!['['];
                let mut r = r;
                out.append(&mut r);
                Some(out)
            },
            None => None,
        };
    }
    let ps = split_pieces(s);
    let ghost pv = ps@.map_values(|v: Vec<char>| v@);
    proof {
        lemma_split_total(s@, 0, Seq::empty());
    }
    let np = ps.len();
    let mut bs: Vec<Vec<char>> = Vec::new();
    let mut k: usize = 0;
    proof {
        let bv = bs@.map_values(|v: Vec<char>| v@);
        assert(bv =~= Seq::<Seq<char>>::empty());
        match blocks(s@, pv, 0) {
            Some(rest) => assert(bv + rest =~= rest),
            None => {},
        }
    }
    while k < np
        invariant
            n == s@.len(),
            np == ps@.len(),
            pv == ps@.map_values(|v: Vec<char>| v@),
            pv == pieces(s@),
            !(s@.len() > 0 && s@[0] == '['),
            total_len(pv) <= s@.len(),
            k <= np,
            blocks(s@, pv, 0) == (match blocks(s@, pv, k as int) {
                Some(rest) => Some(bs@.map_values(|v: Vec<char>| v@) + rest),
                None => None::<Seq<Seq<char>>>,
            }),
        decreases np - k,
    {
        let ghost bv = bs@.map_values(|v: Vec<char>| v@);
        let found = group_exec(&ps, k);
        match found {
            None => {
                proof {
                    assert(blocks(s@, pv, k as int) is None);
                }
                return None;
            },
            Some((pre, sub, nk)) => {
                let ghost pre_v = pre@;
                let ghost sub_v = sub@;
                let el = if sub.len() > 0 {
                    if sub.len() < n {
                        match clean_chars(&sub) {
                            Some(c) => {
                                let ghost c_v = c@;
                                let mut e = pre;
                                let mut c = c;
                                e.push('<');
                                e.append(&mut c);
                                e.push('>');
                                proof {
                                    assert(e@ =~= pre_v + seq!['<'] + c_v + seq!['>']);
                                }
                                e
                            },
                            None => {
                                proof {
                                    assert(blocks(s@, pv, k as int) is None);
                                }
                                return None;
                            },
                        }
                    } else {
                        proof {
                            assert(blocks(s@, pv, k as int) is None);
                        }
                        return None;
                    }
                } else {
                    pre
                };
                let ghost ev = el@;
                bs.push(el);
                let next = if k < nk && nk <= np { nk } else { np };
                proof {
                    assert(bs@.map_values(|v: Vec<char>| v@) =~= bv.push(ev));
                    assert(blocks(s@, pv, k as int) == (match blocks(s@, pv, next as int) {
                        Some(rest) => Some(seq![ev] + rest),
                        None => None::<Seq<Seq<char>>>,
                    }));
                    match blocks(s@, pv, next as int) {
                        Some(rest) => {
                            assert(bv + (seq![ev] + rest) =~= bv.push(ev) + rest);
                        },
                        None => {},
                    }
                }
                k = next;
            },
        }
    }
    let ghost bv2 = bs@.map_values(|v: Vec<char>| v@);
    proof {
        assert(bv2 + Seq::<Seq<char>>::empty() =~= bv2);
    }
    if bs.len() == 0 {
        return None;
    }
    let alloc = chars_of("alloc");
    let own = chars_of("dmove");
    let std_root = chars_of("std");
    if chars_eq(&bs[0], &alloc) || chars_eq(&bs[0], &own) {
        let last = bs.len() - 1;
        let mut out: Vec<char> = Vec::new();
        let piece = &bs[last];
        let mut j: usize = 0;
        while j < piece.len()
            invariant
                j <= piece@.len(),
                out@ == piece@.subrange(0, j as int),
            decreases piece@.len() - j,
        {
            out.push(piece[j]);
            proof {
                assert(out@ =~= piece@.subrange(0, j + 1));
            }
            j += 1;
        }
        proof {
            assert(out@ =~= piece@);
        }
        return Some(out);
    }
    if bs.len() > 1 && !chars_eq(&bs[0], &std_root) {
        let ghost before = bs@.map_values(|v: Vec<char>| v@);
        bs.set(0, chars_of("crate"));
        proof {
            assert(bs@.map_values(|v: Vec<char>| v@) =~= before.update(0, "crate"@));
        }
        return Some(join_blocks(&bs));
    }
    Some(join_blocks(&bs))
}

/// The short name of a type path for generated code: a path starting with `[` is a slice of
/// the cleaned rest; otherwise each element's generic arguments are cleaned in turn, a path
/// rooted at `alloc` or at this crate's own package comes down to its last element, and any
/// other path of more than one element outside `std` is rooted at `crate`. Nothing where a
/// leading `[` is not closed at the end or a `<` is never closed.
pub fn clean_name(base_name: &str) -> (res: Option<String>)
    ensures
        match res {
            Some(r) => cleaned(base_name@) == Some(r@),
            None => cleaned(base_name@) is None,
        },
{
    let cs = chars_of(base_name);
    match clean_chars(&cs) {
        Some(r) => Some(string_from_chars(&r)),
        None => None,
    }
}

} // verus!
