use vstd::prelude::*;
use vstd::string::*;
use crate::text::{chars_of, dec_digits, push_digits, string_from_chars};
use crate::words::{ascii_lowered, lowercased, to_lowercase};
use vstd::utf8::is_ascii_chars;

verus! {

broadcast use vstd::string::group_string_axioms;

/// What every ORCID link starts with.
pub const ORCID_PREF: &'static str = "https://orcid.org/";

/// The resolver links a DOI may come wrapped in.
pub open spec fn doi_prefixes() -> Seq<Seq<char>> {
    seq!["https://doi.org/"@, "http://doi.org/"@, "https://dx.doi.org/"@, "http://dx.doi.org/"@]
}

/// Unicode's white space, as `char::is_whitespace` documents it.
pub open spec fn is_white(c: char) -> bool {
    ('\u{9}' <= c && c <= '\u{d}') || c == ' ' || c == '\u{85}' || c == '\u{a0}' || c == '\u{1680}'
        || ('\u{2000}' <= c && c <= '\u{200a}') || c == '\u{2028}' || c == '\u{2029}' || c
        == '\u{202f}' || c == '\u{205f}' || c == '\u{3000}'
}

/// Whether the character is white space.
pub fn white(c: char) -> (res: bool)
    ensures
        res == is_white(c),
{
    ('\u{9}' <= c && c <= '\u{d}') || c == ' ' || c == '\u{85}' || c == '\u{a0}' || c == '\u{1680}'
        || ('\u{2000}' <= c && c <= '\u{200a}') || c == '\u{2028}' || c == '\u{2029}' || c
        == '\u{202f}' || c == '\u{205f}' || c == '\u{3000}'
}

/// The number of white characters at the start.
pub open spec fn lead_white(s: Seq<char>) -> nat
    decreases s.len(),
{
    if s.len() > 0 && is_white(s[0]) {
        1 + lead_white(s.drop_first())
    } else {
        0
    }
}

/// The number of white characters at the end.
pub open spec fn trail_white(s: Seq<char>) -> nat
    decreases s.len(),
{
    if s.len() > 0 && is_white(s.last()) {
        1 + trail_white(s.drop_last())
    } else {
        0
    }
}

/// The text without white space at either end.
pub open spec fn trimmed(s: Seq<char>) -> Seq<char> {
    let a = lead_white(s);
    if a == s.len() {
        Seq::empty()
    } else {
        s.subrange(a as int, s.len() - trail_white(s))
    }
}

proof fn lemma_lead_white(s: Seq<char>, i: int)
    requires
        0 <= i <= s.len(),
        forall|k: int| 0 <= k < i ==> is_white(#[trigger] s[k]),
        i == s.len() || !is_white(s[i]),
    ensures
        lead_white(s) == i,
    decreases i,
{
    if i > 0 {
        lemma_lead_white(s.drop_first(), i - 1);
    }
}

proof fn lemma_trail_white(s: Seq<char>, j: int)
    requires
        0 <= j <= s.len(),
        forall|k: int| j <= k < s.len() ==> is_white(#[trigger] s[k]),
        j == 0 || !is_white(s[j - 1]),
    ensures
        trail_white(s) == s.len() - j,
    decreases s.len() - j,
{
    if j < s.len() {
        lemma_trail_white(s.drop_last(), j);
    }
}

/// The text without white space at either end.
pub fn trim(s: &str) -> (res: &str)
    ensures
        res@ == trimmed(s@),
{
    let n = s.unicode_len();
    let mut i: usize = 0;
    while i < n && white(s.get_char(i))
        invariant
            n == s@.len(),
            i <= n,
            forall|k: int| 0 <= k < i ==> is_white(#[trigger] s@[k]),
        decreases n - i,
    {
        i += 1;
    }
    proof {
        lemma_lead_white(s@, i as int);
    }
    if i == n {
        return s.substring_char(n, n);
    }
    let mut j: usize = n;
    while j > i && white(s.get_char(j - 1))
        invariant
            n == s@.len(),
            i < n,
            !is_white(s@[i as int]),
            i <= j <= n,
            forall|k: int| j <= k < n ==> is_white(#[trigger] s@[k]),
        decreases j,
    {
        j -= 1;
    }
    proof {
        lemma_trail_white(s@, j as int);
    }
    s.substring_char(i, j)
}

/// The lowercase of an ASCII letter; any other character stays.
pub open spec fn ascii_lower(c: char) -> char {
    if 'A' <= c && c <= 'Z' {
        ((c as u32) + 32) as char
    } else {
        c
    }
}

/// `s` starts with `p`, ignoring the case of ASCII letters.
pub open spec fn starts_with_ignoring_case(s: Seq<char>, p: Seq<char>) -> bool {
    p.len() <= s.len() && forall|k: int| 0 <= k < p.len() ==> ascii_lower(#[trigger] s[k]) == ascii_lower(p[k])
}

fn lower(c: char) -> (res: char)
    ensures
        res == ascii_lower(c),
{
    if 'A' <= c && c <= 'Z' {
        let b = c as u8;
        proof {
            assert(b == c as u32);
        }
        (b + 32) as char
    } else {
        c
    }
}

fn starts_ignoring_case(s: &str, p: &str) -> (res: bool)
    ensures
        res == starts_with_ignoring_case(s@, p@),
{
    let n = s.unicode_len();
    let m = p.unicode_len();
    if m > n {
        return false;
    }
    let mut k: usize = 0;
    while k < m
        invariant
            n == s@.len(),
            m == p@.len(),
            m <= n,
            k <= m,
            forall|q: int| 0 <= q < k ==> ascii_lower(#[trigger] s@[q]) == ascii_lower(p@[q]),
        decreases m - k,
    {
        if lower(s.get_char(k)) != lower(p.get_char(k)) {
            return false;
        }
        k += 1;
    }
    true
}

/// A DOI with the first resolver link it starts with removed, ignoring the case of ASCII
/// letters, and white space at either end trimmed.
pub open spec fn bare_doi(doi: Seq<char>) -> Seq<char> {
    let t = trimmed(doi);
    if starts_with_ignoring_case(t, doi_prefixes()[0]) {
        t.subrange(doi_prefixes()[0].len() as int, t.len() as int)
    } else if starts_with_ignoring_case(t, doi_prefixes()[1]) {
        t.subrange(doi_prefixes()[1].len() as int, t.len() as int)
    } else if starts_with_ignoring_case(t, doi_prefixes()[2]) {
        t.subrange(doi_prefixes()[2].len() as int, t.len() as int)
    } else if starts_with_ignoring_case(t, doi_prefixes()[3]) {
        t.subrange(doi_prefixes()[3].len() as int, t.len() as int)
    } else {
        t
    }
}

/// Bare DOI: the resolver link OpenAlex puts in front removed, case untouched.
pub fn strip_doi_prefix(doi: &str) -> (res: &str)
    ensures
        res@ == bare_doi(doi@),
{
    let t = trim(doi);
    let prefixes: [&str; 4] = ["https://doi.org/", "http://doi.org/", "https://dx.doi.org/", "http://dx.doi.org/"];
    let mut k: usize = 0;
    while k < 4
        invariant
            k <= 4,
            t@ == trimmed(doi@),
            prefixes@.len() == 4,
            forall|q: int| 0 <= q < 4 ==> #[trigger] prefixes@[q]@ == doi_prefixes()[q],
            forall|q: int| 0 <= q < k ==> !starts_with_ignoring_case(t@, #[trigger] doi_prefixes()[q]),
        decreases 4 - k,
    {
        let pref = prefixes[k];
        if starts_ignoring_case(t, pref) {
            let pl = pref.unicode_len();
            let tl = t.unicode_len();
            return t.substring_char(pl, tl);
        }
        k += 1;
    }
    t
}

/// The DOI as claims store it: bare and lowercase.
pub fn canonical_doi(doi: &str) -> (res: String)
    ensures
        res@ == lowercased(bare_doi(doi@)),
        is_ascii_chars(bare_doi(doi@)) ==> res@ == ascii_lowered(bare_doi(doi@)),
{
    to_lowercase(strip_doi_prefix(doi))
}

/// An ORCID without the link in front of it, where it has one.
pub open spec fn bare_orcid(orcid: Seq<char>) -> Seq<char> {
    if orcid.len() >= ORCID_PREF@.len() && orcid.subrange(0, ORCID_PREF@.len() as int) == ORCID_PREF@ {
        orcid.subrange(ORCID_PREF@.len() as int, orcid.len() as int)
    } else {
        orcid
    }
}

/// An ORCID without the link in front of it, where it has one.
pub fn normalize_orcid(orcid: &str) -> (res: String)
    ensures
        res@ == bare_orcid(orcid@),
{
    let n = orcid.unicode_len();
    let m = ORCID_PREF.unicode_len();
    let mut matches = m <= n;
    let mut k: usize = 0;
    while matches && k < m
        invariant
            n == orcid@.len(),
            m == ORCID_PREF@.len(),
            matches ==> m <= n,
            k <= m,
            matches ==> forall|q: int| 0 <= q < k ==> orcid@[q] == ORCID_PREF@[q],
            !matches ==> !(orcid@.len() >= ORCID_PREF@.len() && orcid@.subrange(0, ORCID_PREF@.len() as int) == ORCID_PREF@),
        decreases m - k,
    {
        if orcid.get_char(k) != ORCID_PREF.get_char(k) {
            proof {
                if orcid@.len() >= ORCID_PREF@.len() {
                    assert(orcid@.subrange(0, ORCID_PREF@.len() as int)[k as int] == orcid@[k as int]);
                }
            }
            matches = false;
        }
        k += 1;
    }
    if matches {
        proof {
            assert(orcid@.subrange(0, ORCID_PREF@.len() as int) =~= ORCID_PREF@);
        }
        let rest = orcid.substring_char(m, n);
        string_from_chars(&chars_of(rest))
    } else {
        string_from_chars(&chars_of(orcid))
    }
}

/// An ASCII digit.
pub open spec fn is_ascii_digit(c: char) -> bool {
    '0' <= c && c <= '9'
}

/// Whether the character is an ASCII digit.
fn is_digit_char(c: char) -> (res: bool)
    ensures
        res == is_ascii_digit(c),
{
    '0' <= c && c <= '9'
}

/// The number of characters before the trailing ASCII digits.
pub open spec fn digit_tail_start(s: Seq<char>) -> nat
    decreases s.len(),
{
    if s.len() > 0 && is_ascii_digit(s.last()) {
        digit_tail_start(s.drop_last())
    } else {
        s.len()
    }
}

pub proof fn lemma_digit_tail_start(s: Seq<char>, j: int)
    requires
        0 <= j <= s.len(),
        forall|k: int| j <= k < s.len() ==> is_ascii_digit(#[trigger] s[k]),
        j == 0 || !is_ascii_digit(s[j - 1]),
    ensures
        digit_tail_start(s) == j,
    decreases s.len() - j,
{
    if j < s.len() {
        lemma_digit_tail_start(s.drop_last(), j);
    }
}

/// The id text with its trailing number replaced by `id`, whatever prefix it carries; the
/// last character before the number is a one-byte one.
pub fn with_id(field: &str, id: u64) -> (res: String)
    requires
        digit_tail_start(field@) == 0 || field@[digit_tail_start(field@) - 1] < '\u{80}',
    ensures
        res@ == field@.subrange(0, digit_tail_start(field@) as int) + dec_digits(id as nat),
{
    let n = field.unicode_len();
    let mut j: usize = n;
    while j > 0 && is_digit_char(field.get_char(j - 1))
        invariant
            n == field@.len(),
            j <= n,
            forall|k: int| j <= k < n ==> is_ascii_digit(#[trigger] field@[k]),
        decreases j,
    {
        j -= 1;
    }
    proof {
        lemma_digit_tail_start(field@, j as int);
    }
    let mut out = chars_of(field.substring_char(0, j));
    push_digits(&mut out, id);
    string_from_chars(&out)
}

proof fn lemma_trimmed_plain(s: Seq<char>)
    requires
        s.len() > 0,
        !is_white(s[0]),
        !is_white(s.last()),
    ensures
        trimmed(s) == s,
{
    lemma_lead_white(s, 0);
    lemma_trail_white(s, s.len() as int);
    assert(s.subrange(0, s.len() as int) =~= s);
}

/// A DOI behind any of the four resolver links, `https://doi.org/`, `http://doi.org/`,
/// `https://dx.doi.org/` and `http://dx.doi.org/`, comes out bare, its case untouched, as
/// long as it ends in no white space.
pub proof fn law_doi_resolvers_removed(d: Seq<char>)
    requires
        d.len() == 0 || !is_white(d.last()),
    ensures
        bare_doi("https://doi.org/"@ + d) == d,
        bare_doi("http://doi.org/"@ + d) == d,
        bare_doi("https://dx.doi.org/"@ + d) == d,
        bare_doi("http://dx.doi.org/"@ + d) == d,
{
    reveal_strlit("https://doi.org/");
    reveal_strlit("http://doi.org/");
    reveal_strlit("https://dx.doi.org/");
    reveal_strlit("http://dx.doi.org/");
    let p0 = "https://doi.org/"@;
    let p1 = "http://doi.org/"@;
    let p2 = "https://dx.doi.org/"@;
    let p3 = "http://dx.doi.org/"@;
    assert(doi_prefixes()[0] == p0 && doi_prefixes()[1] == p1 && doi_prefixes()[2] == p2 && doi_prefixes()[3] == p3);
    let s0 = p0 + d;
    let s1 = p1 + d;
    let s2 = p2 + d;
    let s3 = p3 + d;
    // each text starts with 'h' and ends in `/` or in the DOI's last character
    assert(s0[0] == 'h' && s1[0] == 'h' && s2[0] == 'h' && s3[0] == 'h');
    if d.len() == 0 {
        assert(s0.last() == '/' && s1.last() == '/' && s2.last() == '/' && s3.last() == '/');
    } else {
        assert(s0.last() == d.last() && s1.last() == d.last() && s2.last() == d.last() && s3.last() == d.last());
    }
    lemma_trimmed_plain(s0);
    lemma_trimmed_plain(s1);
    lemma_trimmed_plain(s2);
    lemma_trimmed_plain(s3);
    assert(starts_with_ignoring_case(s0, p0)) by {
        assert forall|k: int| 0 <= k < p0.len() implies ascii_lower(#[trigger] s0[k]) == ascii_lower(p0[k]) by {
            assert(s0[k] == p0[k]);
        }
    }
    assert(s0.subrange(p0.len() as int, s0.len() as int) =~= d);
    assert(s1[4] == ':' && p0[4] == 's');
    assert(!starts_with_ignoring_case(s1, p0));
    assert(starts_with_ignoring_case(s1, p1)) by {
        assert forall|k: int| 0 <= k < p1.len() implies ascii_lower(#[trigger] s1[k]) == ascii_lower(p1[k]) by {
            assert(s1[k] == p1[k]);
        }
    }
    assert(s1.subrange(p1.len() as int, s1.len() as int) =~= d);
    assert(s2[9] == 'x' && p0[9] == 'o');
    assert(!starts_with_ignoring_case(s2, p0));
    assert(s2[4] == 's' && p1[4] == ':');
    assert(!starts_with_ignoring_case(s2, p1));
    assert(starts_with_ignoring_case(s2, p2)) by {
        assert forall|k: int| 0 <= k < p2.len() implies ascii_lower(#[trigger] s2[k]) == ascii_lower(p2[k]) by {
            assert(s2[k] == p2[k]);
        }
    }
    assert(s2.subrange(p2.len() as int, s2.len() as int) =~= d);
    assert(s3[4] == ':' && p0[4] == 's');
    assert(!starts_with_ignoring_case(s3, p0));
    assert(s3[8] == 'x' && p1[8] == 'o');
    assert(!starts_with_ignoring_case(s3, p1));
    assert(s3[4] == ':' && p2[4] == 's');
    assert(!starts_with_ignoring_case(s3, p2));
    assert(starts_with_ignoring_case(s3, p3)) by {
        assert forall|k: int| 0 <= k < p3.len() implies ascii_lower(#[trigger] s3[k]) == ascii_lower(p3[k]) by {
            assert(s3[k] == p3[k]);
        }
    }
    assert(s3.subrange(p3.len() as int, s3.len() as int) =~= d);
}

/// A DOI with no white space at either end that starts with none of the four resolver links,
/// whatever its case, comes out as it is.
pub proof fn law_bare_doi_kept(d: Seq<char>)
    requires
        d.len() == 0 || (!is_white(d[0]) && !is_white(d.last())),
        !starts_with_ignoring_case(d, "https://doi.org/"@),
        !starts_with_ignoring_case(d, "http://doi.org/"@),
        !starts_with_ignoring_case(d, "https://dx.doi.org/"@),
        !starts_with_ignoring_case(d, "http://dx.doi.org/"@),
    ensures
        bare_doi(d) == d,
{
    if d.len() > 0 {
        lemma_trimmed_plain(d);
    } else {
        assert(trimmed(d) =~= d);
    }
}

/// `u` spells `p`, a text without capitals, with any of its ASCII letters in either case.
pub open spec fn spells_in_any_case(u: Seq<char>, p: Seq<char>) -> bool {
    &&& u.len() == p.len()
    &&& forall|k: int| 0 <= k < p.len() ==> (#[trigger] u[k] == p[k] || ('A' <= u[k] && u[k] <= 'Z' && (u[k] as u32) + 32 == (p[k] as u32)))
}

/// A DOI behind any of the four resolver links, written in any case, comes out bare, its own
/// case untouched, as long as it ends in no white space.
pub proof fn law_doi_resolvers_removed_any_case(u: Seq<char>, d: Seq<char>)
    requires
        spells_in_any_case(u, "https://doi.org/"@) || spells_in_any_case(u, "http://doi.org/"@)
            || spells_in_any_case(u, "https://dx.doi.org/"@) || spells_in_any_case(u, "http://dx.doi.org/"@),
        d.len() == 0 || !is_white(d.last()),
    ensures
        bare_doi(u + d) == d,
{
    reveal_strlit("https://doi.org/");
    reveal_strlit("http://doi.org/");
    reveal_strlit("https://dx.doi.org/");
    reveal_strlit("http://dx.doi.org/");
    let ps = doi_prefixes();
    assert(ps[0] == "https://doi.org/"@ && ps[1] == "http://doi.org/"@ && ps[2] == "https://dx.doi.org/"@ && ps[3] == "http://dx.doi.org/"@);
    let j: int = if spells_in_any_case(u, ps[0]) {
        0
    } else if spells_in_any_case(u, ps[1]) {
        1
    } else if spells_in_any_case(u, ps[2]) {
        2
    } else {
        3
    };
    let p = ps[j];
    let s = u + d;
    // no prefix holds a capital, so `u` lowers to it
    assert forall|k: int| 0 <= k < p.len() implies #[trigger] ascii_lower(s[k]) == ascii_lower(p[k]) by {
        assert(s[k] == u[k]);
        assert(p[k] < 'A' || p[k] > 'Z');
    }
    assert(starts_with_ignoring_case(s, p));
    assert(ascii_lower(s[0]) == 'h');
    assert(!is_white(s[0]));
    if d.len() == 0 {
        assert(ascii_lower(s[s.len() - 1]) == '/');
        assert(!is_white(s.last()));
    } else {
        assert(s.last() == d.last());
    }
    lemma_trimmed_plain(s);
    assert(s.subrange(p.len() as int, s.len() as int) =~= d);
    // the links before `p` differ from it within its length
    if j >= 1 {
        assert(ascii_lower(s[4]) != ascii_lower(ps[0][4]) || ascii_lower(s[9]) != ascii_lower(ps[0][9]));
        assert(!starts_with_ignoring_case(s, ps[0]));
    }
    if j >= 2 {
        assert(ascii_lower(s[4]) != ascii_lower(ps[1][4]) || ascii_lower(s[8]) != ascii_lower(ps[1][8]));
        assert(!starts_with_ignoring_case(s, ps[1]));
    }
    if j >= 3 {
        assert(ascii_lower(s[4]) != ascii_lower(ps[2][4]));
        assert(!starts_with_ignoring_case(s, ps[2]));
    }
}

} // verus!
