use vstd::prelude::*;
use crate::text::{chars_of, dec_digits, digit, push_digits, str_eq, string_from_chars};

verus! {

/// The last publication year of the data.
pub const FINAL_YEAR: u16 = 2026;

/// Year index 0: the first year of the data, standing for an unknown year.
pub const START_YEAR: u16 = 1950;

/// The fewest papers an institution needs to be ranked.
pub const MIN_PAPERS_FOR_INST: u16 = 250;

/// The fewest papers a source needs to be ranked.
pub const MIN_PAPERS_FOR_SOURCE: u16 = 200;

/// The fewest papers an author needs to be ranked.
pub const MIN_AUTHOR_WORK_COUNT: u16 = 8;

/// The fewest citations an author needs to be ranked.
pub const MIN_AUTHOR_CITE_COUNT: u16 = 400;

/// The last publication year with paper scores: in the final year, when a paper appeared would
/// weigh more than how it is cited.
pub const LAST_SCORED_YEAR: u16 = FINAL_YEAR - 1;

/// The fractions of the paper score are held in ten-thousandths.
pub const SCORE_UNIT: u64 = 10000;

/// What a paper's score measures it against, and the score that makes it a hit paper; the
/// fractions in ten-thousandths.
pub struct PaperScore {
    /// The bar is the citation count that enters this top share of a group.
    pub top_share: u64,
    /// Weights of the subfield, the year and the subfield-year bars blended into a paper's.
    pub w_sf: u64,
    pub w_year: u64,
    pub w_sf_year: u64,
    /// A subfield-year group smaller than this has no bar of its own and takes the year's.
    pub sf_year_min_papers: usize,
    /// Multiple of its bar a paper's citations reach to make it a hit paper.
    pub hit_multiple: u64,
    /// A stored bar counts citations in units of 1 / this.
    pub bar_scale: u16,
}

/// The paper score's settings: the top 1% bar, blended 0.5% from the subfield, 10% from the
/// year and the rest from the subfield-year, and hits at 1.5 times the bar.
pub fn paper_score_settings() -> (res: PaperScore)
    ensures
        res.top_share == 100,
        res.w_sf == 50,
        res.w_year == 1000,
        res.w_sf_year == SCORE_UNIT - res.w_sf - res.w_year,
        res.sf_year_min_papers == 400,
        res.hit_multiple == 15000,
        res.bar_scale == 4,
{
    let w_sf: u64 = 50;
    let w_year: u64 = 1000;
    PaperScore {
        top_share: 100,
        w_sf,
        w_year,
        w_sf_year: SCORE_UNIT - w_sf - w_year,
        sf_year_min_papers: 400,
        hit_multiple: 15000,
        bar_scale: 4,
    }
}

/// The screen that decides which papers enter the data at all.
pub struct WorkScreen {
    pub kinds: Vec<&'static str>,
    pub min_citations: usize,
    pub max_authors: usize,
    pub first_year: u16,
    pub final_year: u16,
    pub min_papers_for_institution: u16,
    pub min_papers_for_source: u16,
    pub min_author_papers: u16,
    pub min_author_citations: u16,
}

/// The kinds of work the screen lets in.
pub open spec fn screen_kinds() -> Seq<Seq<char>> {
    seq!["article"@, "book"@, "review"@, "book-chapter"@, "conference-paper"@]
}

/// The work screen: the kinds above, at least one citation, at most 20 authors, the years
/// after the first up to the final one, and the per-entity minimums.
pub fn work_screen() -> (res: WorkScreen)
    ensures
        res.kinds@.len() == 5,
        forall|i: int| 0 <= i < 5 ==> #[trigger] res.kinds@[i]@ == screen_kinds()[i],
        res.min_citations == 1,
        res.max_authors == 20,
        res.first_year == START_YEAR + 1,
        res.final_year == FINAL_YEAR,
        res.min_papers_for_institution == MIN_PAPERS_FOR_INST,
        res.min_papers_for_source == MIN_PAPERS_FOR_SOURCE,
        res.min_author_papers == MIN_AUTHOR_WORK_COUNT,
        res.min_author_citations == MIN_AUTHOR_CITE_COUNT,
{
    let kinds: Vec<&'static str> = vec!["article", "book", "review", "book-chapter", "conference-paper"];
    WorkScreen {
        kinds,
        min_citations: 1,
        max_authors: 20,
        first_year: START_YEAR + 1,
        final_year: FINAL_YEAR,
        min_papers_for_institution: MIN_PAPERS_FOR_INST,
        min_papers_for_source: MIN_PAPERS_FOR_SOURCE,
        min_author_papers: MIN_AUTHOR_WORK_COUNT,
        min_author_citations: MIN_AUTHOR_CITE_COUNT,
    }
}

/// The text a missing kind stands for: the empty one.
pub open spec fn kind_text(kind: Option<&str>) -> Seq<char> {
    match kind {
        Some(k) => k@,
        None => ""@,
    }
}

impl WorkScreen {
    /// Not retracted, and published within the screen's years.
    pub fn admits_publication(&self, retracted: bool, year: u16) -> (res: bool)
        ensures
            res == (!retracted && self.first_year <= year && year <= self.final_year),
    {
        !retracted && self.first_year <= year && year <= self.final_year
    }

    /// The kind is one of the screen's; a missing kind counts as the empty text.
    pub fn admits_kind(&self, kind: Option<&str>) -> (res: bool)
        ensures
            res == exists|i: int| 0 <= i < self.kinds@.len() && #[trigger] self.kinds@[i]@ == kind_text(kind),
    {
        let k: &str = match kind {
            Some(k) => k,
            None => "",
        };
        let mut i: usize = 0;
        while i < self.kinds.len()
            invariant
                i <= self.kinds@.len(),
                k@ == kind_text(kind),
                forall|j: int| 0 <= j < i ==> #[trigger] self.kinds@[j]@ != kind_text(kind),
            decreases self.kinds@.len() - i,
        {
            if str_eq(self.kinds[i], k) {
                return true;
            }
            i += 1;
        }
        false
    }

    /// At most the screen's number of authors.
    pub fn admits_authorship(&self, authors: usize) -> (res: bool)
        ensures
            res == (authors <= self.max_authors),
    {
        authors <= self.max_authors
    }
}

/// Whether a paper of the year gets a score: from the year after the first one of the data up
/// to the last scored year.
pub fn is_scored(year: u16) -> (res: bool)
    ensures
        res == (START_YEAR + 1 <= year && year <= LAST_SCORED_YEAR),
{
    START_YEAR + 1 <= year && year <= LAST_SCORED_YEAR
}

/// One breakdown level of a tree: the attribute entity and the side of the citation link it
/// sits on.
#[derive(Clone, Copy, PartialEq, Eq, Hash, Debug)]
pub struct Level {
    pub entity: &'static str,
    pub source_side: bool,
}

impl Level {
    /// The level of the entity on the citing side.
    pub fn citing(entity: &'static str) -> (res: Self)
        ensures
            res.entity == entity,
            !res.source_side,
    {
        Self { entity, source_side: false }
    }

    /// The level of the entity on the cited side.
    pub fn refed(entity: &'static str) -> (res: Self)
        ensures
            res.entity == entity,
            res.source_side,
    {
        Self { entity, source_side: true }
    }

    /// The level's name: the entity, a hyphen, and the side.
    pub fn to_string(&self) -> (res: String)
        ensures
            res@ == self.entity@ + "-"@ + (if self.source_side {
                "refed"@
            } else {
                "citing"@
            }),
    {
        let mut out = chars_of(self.entity);
        let mut dash = chars_of("-");
        out.append(&mut dash);
        let side: &str = if self.source_side {
            "refed"
        } else {
            "citing"
        };
        let mut side_chars = chars_of(side);
        out.append(&mut side_chars);
        string_from_chars(&out)
    }
}

/// What one published item means and why it is defined that way, as templates over the
/// constants.
#[derive(Clone, Copy)]
pub struct Texts {
    pub id: &'static str,
    pub label: &'static str,
    pub meaning: &'static str,
    pub rationale: Option<&'static str>,
}

/// The texts of the paper score.
pub fn paper_score_texts() -> (res: Texts)
    ensures
        res.id@ == "paper_score"@,
        res.label@ == "Paper score"@,
        res.meaning@ == "A paper's citations measured against the top-{top_share} bar of its own field and year: the square root of citations ÷ bar, so 1 means right at the bar and 2 means four times its citations. The bar blends the citation counts that enter the top {top_share} of the paper's subfields in its year (weighted {w_sf_year}), of those subfields over all years ({w_sf}) and of its year across all fields ({w_year}); a subfield and year with fewer than {sf_year_min_papers} papers takes its year's bar. Papers from {final_year} are not scored yet: in an unfinished year, when a paper appeared matters more than how it is cited."@,
        res.rationale matches Some(r) && r@ == "Citation counts differ by field and grow with a paper's age, so a paper is read against papers of its own field and year. {w_year} of the bar comes from the year across all fields, which keeps some of the difference between fields on purpose."@,
{
    Texts {
        id: "paper_score",
        label: "Paper score",
        meaning: "A paper's citations measured against the top-{top_share} bar of its own field and year: the square root of citations ÷ bar, so 1 means right at the bar and 2 means four times its citations. The bar blends the citation counts that enter the top {top_share} of the paper's subfields in its year (weighted {w_sf_year}), of those subfields over all years ({w_sf}) and of its year across all fields ({w_year}); a subfield and year with fewer than {sf_year_min_papers} papers takes its year's bar. Papers from {final_year} are not scored yet: in an unfinished year, when a paper appeared matters more than how it is cited.",
        rationale: Some(
            "Citation counts differ by field and grow with a paper's age, so a paper is read against papers of its own field and year. {w_year} of the bar comes from the year across all fields, which keeps some of the difference between fields on purpose.",
        ),
    }
}

/// The texts of the hit paper.
pub fn hit_paper_texts() -> (res: Texts)
    ensures
        res.id@ == "hit_paper"@,
        res.label@ == "Hit paper"@,
        res.meaning@ == "A paper cited at least {hit_multiple}× the top-{top_share} bar of its field and year: a paper score of at least √{hit_multiple}."@,
        res.rationale matches Some(r) && r@ == "A threshold on the paper score alone, so a hit paper means the same in every field and year."@,
{
    Texts {
        id: "hit_paper",
        label: "Hit paper",
        meaning: "A paper cited at least {hit_multiple}× the top-{top_share} bar of its field and year: a paper score of at least √{hit_multiple}.",
        rationale: Some(
            "A threshold on the paper score alone, so a hit paper means the same in every field and year.",
        ),
    }
}

/// The Top-N a root type's mean averages over, by entity name.
pub open spec fn top_n_spec(root: Seq<char>) -> Option<usize> {
    if root == "sources"@ {
        Some(1000)
    } else if root == "institutions"@ {
        Some(2000)
    } else if root == "countries"@ {
        Some(2000)
    } else if root == "authors"@ {
        Some(20)
    } else {
        None
    }
}

/// The number of papers a root type's Top-N mean averages over.
pub fn top_n(root: &str) -> (res: Option<usize>)
    ensures
        res == top_n_spec(root@),
{
    if str_eq(root, "sources") {
        Some(1000)
    } else if str_eq(root, "institutions") {
        Some(2000)
    } else if str_eq(root, "countries") {
        Some(2000)
    } else if str_eq(root, "authors") {
        Some(20)
    } else {
        None
    }
}

/// No element is smaller than a later one.
pub open spec fn descending(s: Seq<u32>) -> bool {
    forall|i: int, j: int| 0 <= i <= j < s.len() ==> s[i] >= s[j]
}

/// The h-index of citations already in descending order: the largest `h` such that the first
/// `h` have at least `h` each.
pub fn h_of_sorted(descending_cites: &Vec<u32>) -> (res: u32)
    requires
        descending(descending_cites@),
        descending_cites@.len() <= u32::MAX,
    ensures
        res <= descending_cites@.len(),
        forall|i: int| 0 <= i < res ==> #[trigger] descending_cites@[i] >= res,
        res < descending_cites@.len() ==> descending_cites@[res as int] <= res,
{
    let mut i: usize = 0;
    while i < descending_cites.len()
        invariant
            i <= descending_cites@.len() <= u32::MAX,
            descending(descending_cites@),
            forall|k: int| 0 <= k < i ==> #[trigger] descending_cites@[k] > k,
        ensures
            i <= descending_cites@.len(),
            forall|k: int| 0 <= k < i ==> #[trigger] descending_cites@[k] > k,
            i < descending_cites@.len() ==> descending_cites@[i as int] <= i,
        decreases descending_cites@.len() - i,
    {
        if descending_cites[i] as usize > i {
            i += 1;
        } else {
            break;
        }
    }
    proof {
        let s = descending_cites@;
        assert forall|k: int| 0 <= k < i implies #[trigger] s[k] >= i by {
            assert(s[k] >= s[i - 1]);
            assert(s[i - 1] > i - 1);
        }
    }
    i as u32
}

/// Sorts the counts from the largest down.
pub fn sort_descending(v: &mut Vec<u32>)
    ensures
        descending(final(v)@),
        final(v)@.len() == old(v)@.len(),
        final(v)@.to_multiset() == old(v)@.to_multiset(),
{
    broadcast use vstd::seq_lib::group_to_multiset_ensures;

    let n = v.len();
    let mut i: usize = 1;
    while i < n
        invariant
            n == v@.len(),
            1 <= i || n == 0,
            i <= n || n == 0,
            descending(v@.subrange(0, if i <= n { i as int } else { n as int })),
            v@.to_multiset() == old(v)@.to_multiset(),
        decreases n - i,
    {
        let mut j = i;
        proof {
            assert forall|a: int, b: int| 0 <= a <= b <= i && a != j && b != j implies v@[a] >= v@[b] by {
                let s = v@.subrange(0, i as int);
                assert(s[a] == v@[a] && s[b] == v@[b]);
            }
        }
        while j > 0 && v[j - 1] < v[j]
            invariant
                n == v@.len(),
                i < n,
                0 <= j <= i,
                forall|a: int, b: int| 0 <= a <= b <= i && a != j && b != j ==> v@[a] >= v@[b],
                forall|b: int| j < b <= i ==> v@[j as int] > v@[b],
                v@.to_multiset() == old(v)@.to_multiset(),
            decreases j,
        {
            let a = v[j - 1];
            let b = v[j];
            let ghost before = v@;
            v.set(j - 1, b);
            v.set(j, a);
            proof {
                crate::fixed_heap::lemma_swap_multiset(before, j - 1, j as int);
                assert(v@ =~= before.update(j - 1, before[j as int]).update(j as int, before[j - 1]));
            }
            j -= 1;
        }
        proof {
            let s = v@.subrange(0, i + 1);
            assert forall|a: int, b: int| 0 <= a <= b < s.len() implies s[a] >= s[b] by {
                if a == j && b > j {
                } else if b == j && a < j {
                    if j > 0 {
                        assert(v@[j - 1] >= v@[j as int]);
                        assert(v@[a] >= v@[j - 1]);
                    }
                }
            }
        }
        i += 1;
    }
    proof {
        if n > 0 {
            assert(v@.subrange(0, n as int) =~= v@);
        } else {
            assert forall|a: int, b: int| 0 <= a <= b < v@.len() implies v@[a] >= v@[b] by {}
        }
    }
}

/// The largest `h` such that `h` of the papers have at least `h` citations each; the counts
/// are left sorted from the largest down.
pub fn h_index(citations: &mut Vec<u32>) -> (res: u32)
    requires
        old(citations)@.len() <= u32::MAX,
    ensures
        descending(final(citations)@),
        final(citations)@.to_multiset() == old(citations)@.to_multiset(),
        res <= final(citations)@.len(),
        forall|i: int| 0 <= i < res ==> #[trigger] final(citations)@[i] >= res,
        res < final(citations)@.len() ==> final(citations)@[res as int] <= res,
{
    sort_descending(citations);
    h_of_sorted(citations)
}

/// `s` without its trailing `c`s.
pub open spec fn trim_end(s: Seq<char>, c: char) -> Seq<char>
    decreases s.len(),
{
    if s.len() > 0 && s.last() == c {
        trim_end(s.drop_last(), c)
    } else {
        s
    }
}

/// The four decimal places of a fraction in ten-thousandths.
pub open spec fn four_places(f: nat) -> Seq<char> {
    seq![
        crate::text::digit_char((f / 1000) as int),
        crate::text::digit_char(((f / 100) % 10) as int),
        crate::text::digit_char(((f / 10) % 10) as int),
        crate::text::digit_char((f % 10) as int),
    ]
}

/// A value in ten-thousandths as text: four decimal places, then trailing zeros and a bare
/// point dropped.
pub open spec fn decimal_text(v: nat) -> Seq<char> {
    trim_end(
        trim_end(dec_digits(v / 10000) + seq!['.'] + four_places(v % 10000), '0'),
        '.',
    )
}

/// A fraction in ten-thousandths as a percentage.
pub open spec fn percent_text(v: nat) -> Seq<char> {
    decimal_text(v * 100) + seq!['%']
}

/// Drops the trailing `c`s.
fn pop_trailing(out: &mut Vec<char>, c: char)
    ensures
        final(out)@ == trim_end(old(out)@, c),
{
    while out.len() > 0 && out[out.len() - 1] == c
        invariant
            trim_end(out@, c) == trim_end(old(out)@, c),
        decreases out@.len(),
    {
        let ghost before = out@;
        out.pop();
        proof {
            assert(out@ == before.drop_last());
        }
    }
}

/// A value in ten-thousandths as text.
pub fn decimal(v: u64) -> (res: String)
    ensures
        res@ == decimal_text(v as nat),
{
    let mut out: Vec<char> = Vec::new();
    push_digits(&mut out, v / 10000);
    out.push('.');
    let f = v % 10000;
    out.push(digit(f / 1000));
    out.push(digit((f / 100) % 10));
    out.push(digit((f / 10) % 10));
    out.push(digit(f % 10));
    proof {
        assert(out@ =~= dec_digits((v / 10000) as nat) + seq!['.'] + four_places((v % 10000) as nat));
    }
    pop_trailing(&mut out, '0');
    pop_trailing(&mut out, '.');
    string_from_chars(&out)
}

/// A fraction in ten-thousandths as a percentage.
pub fn percent(v: u64) -> (res: String)
    requires
        v * 100 <= u64::MAX,
    ensures
        res@ == percent_text(v as nat),
{
    let d = decimal(v * 100);
    let mut out = chars_of(d.as_str());
    out.push('%');
    string_from_chars(&out)
}

/// The names a text template uses, with their values.
pub open spec fn text_vars_spec() -> Seq<(Seq<char>, Seq<char>)> {
    seq![
        ("top_share"@, percent_text(100)),
        ("w_sf_year"@, percent_text(8950)),
        ("w_sf"@, percent_text(50)),
        ("w_year"@, percent_text(1000)),
        ("sf_year_min_papers"@, dec_digits(400)),
        ("hit_multiple"@, decimal_text(15000)),
        ("first_year"@, dec_digits((START_YEAR + 1) as nat)),
        ("final_year"@, dec_digits(FINAL_YEAR as nat)),
        ("last_scored_year"@, dec_digits(LAST_SCORED_YEAR as nat)),
    ]
}

/// The pairs as plain texts.
pub open spec fn vars_view(vars: Seq<(&str, String)>) -> Seq<(Seq<char>, Seq<char>)> {
    vars.map_values(|p: (&str, String)| (p.0@, p.1@))
}

/// The values a text template names as `{name}`, formatted as the texts show them.
pub fn text_vars() -> (res: Vec<(&'static str, String)>)
    ensures
        vars_view(res@) == text_vars_spec(),
{
    let p = paper_score_settings();
    let ws = work_screen();
    let v: Vec<(&'static str, String)> = vec![
        ("top_share", percent(p.top_share)),
        ("w_sf_year", percent(p.w_sf_year)),
        ("w_sf", percent(p.w_sf)),
        ("w_year", percent(p.w_year)),
        ("sf_year_min_papers", crate::text::u64_to_string(p.sf_year_min_papers as u64)),
        ("hit_multiple", decimal(p.hit_multiple)),
        ("first_year", crate::text::u64_to_string(ws.first_year as u64)),
        ("final_year", crate::text::u64_to_string(ws.final_year as u64)),
        ("last_scored_year", crate::text::u64_to_string(LAST_SCORED_YEAR as u64)),
    ];
    proof {
        assert(vars_view(v@) =~= text_vars_spec());
    }
    v
}

/// The place of the first `c` in `t`, or its length where it has none.
pub open spec fn find_char(t: Seq<char>, c: char) -> nat
    decreases t.len(),
{
    if t.len() == 0 {
        0
    } else if t[0] == c {
        0
    } else {
        1 + find_char(t.drop_first(), c)
    }
}

/// The value of the first pair named `name`.
pub open spec fn lookup(vars: Seq<(Seq<char>, Seq<char>)>, name: Seq<char>) -> Option<Seq<char>>
    decreases vars.len(),
{
    if vars.len() == 0 {
        None
    } else if vars[0].0 == name {
        Some(vars[0].1)
    } else {
        lookup(vars.drop_first(), name)
    }
}

/// The template with every `{name}` it has a value for replaced; any other brace stays.
pub open spec fn fill_spec(t: Seq<char>, vars: Seq<(Seq<char>, Seq<char>)>) -> Seq<char>
    decreases t.len(),
{
    let open = find_char(t, '{');
    if open >= t.len() {
        t
    } else {
        let tail = t.subrange(open as int + 1, t.len() as int);
        let close = find_char(tail, '}');
        if close < tail.len() && lookup(vars, tail.subrange(0, close as int)) is Some {
            t.subrange(0, open as int) + lookup(vars, tail.subrange(0, close as int))->0
                + fill_spec(tail.subrange(close as int + 1, tail.len() as int), vars)
        } else {
            t.subrange(0, open as int) + seq!['{'] + fill_spec(tail, vars)
        }
    }
}

/// `find_char` from the front of a stretch.
proof fn lemma_find_char(t: Seq<char>, c: char, i: int)
    requires
        0 <= i <= t.len(),
        forall|k: int| 0 <= k < i ==> t[k] != c,
        i == t.len() || t[i] == c,
    ensures
        find_char(t, c) == i,
    decreases i,
{
    if i > 0 {
        lemma_find_char(t.drop_first(), c, i - 1);
    }
}

/// The first place from `start` on that holds `c`, or the length.
fn find_from(t: &Vec<char>, start: usize, c: char) -> (res: usize)
    requires
        start <= t@.len(),
    ensures
        start <= res <= t@.len(),
        res - start == find_char(t@.subrange(start as int, t@.len() as int), c),
{
    let mut i = start;
    while i < t.len()
        invariant
            start <= i <= t@.len(),
            forall|k: int| start <= k < i ==> t@[k] != c,
        ensures
            start <= i <= t@.len(),
            forall|k: int| start <= k < i ==> t@[k] != c,
            i == t@.len() || t@[i as int] == c,
        decreases t@.len() - i,
    {
        if t[i] == c {
            break;
        }
        i += 1;
    }
    proof {
        lemma_find_char(t@.subrange(start as int, t@.len() as int), c, i - start);
    }
    i
}

/// The value of the first pair whose name is `t[from..to]`.
fn lookup_exec<'a>(vars: &'a [(&str, String)], t: &Vec<char>, from: usize, to: usize) -> (res: Option<&'a String>)
    requires
        from <= to <= t@.len(),
    ensures
        match lookup(vars_view(vars@), t@.subrange(from as int, to as int)) {
            Some(v) => res is Some && res->0@ == v,
            None => res is None,
        },
{
    let ghost name = t@.subrange(from as int, to as int);
    let mut i: usize = 0;
    proof {
        assert(vars_view(vars@).subrange(0, vars@.len() as int) =~= vars_view(vars@));
    }
    while i < vars.len()
        invariant
            i <= vars@.len(),
            name == t@.subrange(from as int, to as int),
            from <= to <= t@.len(),
            lookup(vars_view(vars@), name) == lookup(vars_view(vars@).subrange(i as int, vars@.len() as int), name),
        decreases vars@.len() - i,
    {
        let key = chars_of(vars[i].0);
        let mut same = key.len() == to - from;
        let mut k: usize = 0;
        while same && k < key.len()
            invariant
                same ==> key@.len() == to - from,
                k <= key@.len(),
                from <= to <= t@.len(),
                same ==> forall|q: int| 0 <= q < k ==> key@[q] == t@[from + q],
                !same ==> key@ != t@.subrange(from as int, to as int),
            decreases key@.len() - k,
        {
            if key[k] != t[from + k] {
                proof {
                    assert(t@.subrange(from as int, to as int)[k as int] == t@[from + k]);
                }
                same = false;
            }
            k += 1;
        }
        let ghost rest = vars_view(vars@).subrange(i as int, vars@.len() as int);
        proof {
            assert(rest[0] == (vars@[i as int].0@, vars@[i as int].1@));
            assert(rest.drop_first() =~= vars_view(vars@).subrange(i + 1, vars@.len() as int));
            if same {
                assert(key@ =~= name);
            }
        }
        if same {
            return Some(&vars[i].1);
        }
        i += 1;
    }
    None
}

/// The template with every `{name}` it has a value for replaced; any other brace is left for
/// the client, which fills a parameterized header's argument.
pub fn fill(template: &str, vars: &[(&str, String)]) -> (res: String)
    ensures
        res@ == fill_spec(template@, vars_view(vars@)),
{
    let t = chars_of(template);
    let ghost vv = vars_view(vars@);
    let n = t.len();
    let mut out: Vec<char> = Vec::new();
    let mut pos: usize = 0;
    proof {
        assert(t@.subrange(0, n as int) =~= t@);
    }
    loop
        invariant
            n == t@.len(),
            pos <= n,
            vv == vars_view(vars@),
            out@ + fill_spec(t@.subrange(pos as int, n as int), vv) == fill_spec(template@, vv),
            t@ == template@,
        ensures
            out@ == fill_spec(template@, vv),
        decreases n - pos,
    {
        let ghost rest = t@.subrange(pos as int, n as int);
        let open = find_from(&t, pos, '{');
        if open == n {
            let ghost before = out@;
            let mut k = pos;
            while k < n
                invariant
                    pos <= k <= n == t@.len(),
                    out@ == before + t@.subrange(pos as int, k as int),
                decreases n - k,
            {
                out.push(t[k]);
                proof {
                    assert(t@.subrange(pos as int, k + 1) =~= t@.subrange(pos as int, k as int).push(t@[k as int]));
                }
                k += 1;
            }
            proof {
                assert(t@.subrange(pos as int, n as int) =~= rest);
                assert(fill_spec(t@.subrange(n as int, n as int), vv) =~= Seq::<char>::empty());
                assert(out@ =~= out@ + Seq::<char>::empty());
            }
            pos = n;
            proof {
                assert(out@ == out@ + fill_spec(t@.subrange(pos as int, n as int), vv));
            }
            break;
        }
        let ghost before = out@;
        let mut k = pos;
        while k < open
            invariant
                pos <= k <= open < n == t@.len(),
                out@ == before + t@.subrange(pos as int, k as int),
            decreases open - k,
        {
            out.push(t[k]);
            proof {
                assert(t@.subrange(pos as int, k + 1) =~= t@.subrange(pos as int, k as int).push(t@[k as int]));
            }
            k += 1;
        }
        let close = find_from(&t, open + 1, '}');
        let found = if close < n {
            lookup_exec(vars, &t, open + 1, close)
        } else {
            None
        };
        proof {
            let o = (open - pos) as int;
            let tail = rest.subrange(o + 1, rest.len() as int);
            assert(rest.subrange(0, o) =~= t@.subrange(pos as int, open as int));
            assert(tail =~= t@.subrange(open + 1, n as int));
            let c = (close - open - 1) as int;
            if close < n {
                assert(tail.subrange(0, c) =~= t@.subrange(open + 1, close as int));
                assert(tail.subrange(c + 1, tail.len() as int) =~= t@.subrange(close + 1, n as int));
            }
        }
        match found {
            Some(v) => {
                let mut vc = chars_of(v.as_str());
                out.append(&mut vc);
                pos = close + 1;
            },
            None => {
                out.push('{');
                pos = open + 1;
            },
        }
    }
    string_from_chars(&out)
}

/// Weight of a citing work's own citation count in its score.
pub const CITE_COUNT_WEIGHT: u64 = 3;

/// Weight of the citing work's source prestige in its score.
pub const SOURCE_PRESTIGE_WEIGHT: u64 = 5;

/// Factor on the score of a direct citation over a once-removed one.
pub const DIRECT_MULTIPLIER: u64 = 3;

/// A source's prestige: its quartile, counted down from 5, times twice its h-index, plus
/// three times its median citation count.
pub open spec fn prestige(h: u32, median: u32, q: u8) -> int {
    (if q >= 5 { 0int } else { 5 - q }) * h * 2 + median * 3
}

/// The score of a citing work: its citation count and its source's prestige, weighted, plus
/// one; the source statistics are the h-index and median citations, and the quartile.
pub fn citing_score(cite_count: u16, stats: ([u32; 2], u8)) -> (res: u64)
    requires
        prestige(stats.0@[0], stats.0@[1], stats.1) <= u32::MAX,
    ensures
        res == cite_count * CITE_COUNT_WEIGHT + prestige(stats.0@[0], stats.0@[1], stats.1)
            * SOURCE_PRESTIGE_WEIGHT + 1,
{
    let h = stats.0[0];
    let median = stats.0[1];
    let q = stats.1;
    let qs: u32 = if q >= 5 { 0 } else { 5 - q as u32 };
    proof {
        let t = prestige(h, median, q);
        assert(qs * h * 2 + median * 3 == t);
        assert(qs * h <= qs * h * 2) by (nonlinear_arith)
            requires
                qs >= 0,
                h >= 0,
        ;
        assert(qs * h * 2 <= t);
    }
    let prestige_v = qs * h * 2 + median * 3;
    cite_count as u64 * CITE_COUNT_WEIGHT + prestige_v as u64 * SOURCE_PRESTIGE_WEIGHT + 1
}

/// The nonzero counts, in order.
pub open spec fn active_counts(counts: Seq<u32>) -> Seq<u32>
    decreases counts.len(),
{
    if counts.len() == 0 {
        Seq::empty()
    } else if counts.last() > 0 {
        active_counts(counts.drop_last()).push(counts.last())
    } else {
        active_counts(counts.drop_last())
    }
}

/// The cohort of one subfield for its citation ladder: the nonzero counts, the largest first.
pub fn cohort_desc(counts: &Vec<u32>) -> (res: Vec<u32>)
    ensures
        descending(res@),
        res@.to_multiset() == active_counts(counts@).to_multiset(),
        res@.len() == active_counts(counts@).len(),
{
    broadcast use vstd::seq_lib::group_to_multiset_ensures;

    let mut buf: Vec<u32> = Vec::new();
    let mut i: usize = 0;
    while i < counts.len()
        invariant
            i <= counts@.len(),
            buf@ == active_counts(counts@.take(i as int)),
        decreases counts@.len() - i,
    {
        if counts[i] > 0 {
            buf.push(counts[i]);
        }
        proof {
            assert(counts@.take(i + 1).drop_last() =~= counts@.take(i as int));
        }
        i += 1;
    }
    proof {
        assert(counts@.take(i as int) =~= counts@);
    }
    let ghost before = buf@;
    sort_descending(&mut buf);
    proof {
        before.to_multiset_ensures();
        buf@.to_multiset_ensures();
    }
    buf
}

/// A rank held within `1..=n`.
pub open spec fn clamp_rank(r: int, n: int) -> int {
    if r < 1 {
        1
    } else if r > n {
        n
    } else {
        r
    }
}

/// One row of the citation ladder: for each rank, the count at that rank of the cohort (its
/// counts the largest first), the rank held within the cohort; `u32::MAX` throughout for an
/// empty cohort.
pub fn ladder_row(cohort: &Vec<u32>, ranks: &Vec<usize>) -> (res: Vec<u32>)
    ensures
        res@.len() == ranks@.len(),
        forall|k: int| 0 <= k < ranks@.len() ==> #[trigger] res@[k] == (if cohort@.len() == 0 {
            u32::MAX
        } else {
            cohort@[clamp_rank(ranks@[k] as int, cohort@.len() as int) - 1]
        }),
{
    let n = cohort.len();
    let mut row: Vec<u32> = Vec::new();
    let mut k: usize = 0;
    while k < ranks.len()
        invariant
            k <= ranks@.len(),
            n == cohort@.len(),
            row@.len() == k,
            forall|j: int| 0 <= j < k ==> #[trigger] row@[j] == (if n == 0 {
                u32::MAX
            } else {
                cohort@[clamp_rank(ranks@[j] as int, n as int) - 1]
            }),
        decreases ranks@.len() - k,
    {
        if n == 0 {
            row.push(u32::MAX);
        } else {
            let r = ranks[k];
            let c = if r < 1 {
                1
            } else if r > n {
                n
            } else {
                r
            };
            row.push(cohort[c - 1]);
        }
        k += 1;
    }
    row
}

} // verus!