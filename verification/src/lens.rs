//! The applied ledger at the point where table rows are read: a merged id reads as its keep
//! id, the main row of a merge's drop side does not exist, and neither does a disowned
//! authorship. Which columns play which part comes from the table's header, once per part.
use vstd::prelude::*;
use vstd::utf8::{encode_utf8, is_char_boundary};
use crate::common::{oa_id_parse_opt, parse_u64_spec, ID_NUMBER_START};
use crate::id_collections::{alias_pairs, edge_items, AliasMap};
use vstd::string::*;
use crate::identifiers::{digit_tail_start, is_ascii_digit, with_id};
use vstd::utf8::is_ascii_chars;
use crate::ledger::ResolvedLedger;
use crate::text::{dec_digits, str_eq};

verus! {

/// Which alias table an id column reads through.
#[derive(Debug, Clone, Copy, PartialEq, Eq, Structural)]
pub enum Ids {
    Authors,
    Works,
}

/// The tables whose rows the ledger reaches.
#[derive(Debug, Clone, Copy, PartialEq, Eq, Structural)]
pub enum TableKind {
    /// The main table of works: a dropped work has no row.
    WorksMain,
    /// The main table of authors: a dropped author has no row.
    AuthorsMain,
    /// Works' authorships: work and author ids merge, a disowned edge has no row.
    Authorships,
    /// Works' references: both work ids merge.
    References,
    /// Works' locations and topics: the work id merges.
    WorkParts,
    /// Any other table: the ledger does not reach it.
    Other,
}

/// The kind of the table `<main>/<sub>`.
pub open spec fn kind_of(main: Seq<char>, sub: Seq<char>) -> TableKind {
    if main == "works"@ && sub == "main"@ {
        TableKind::WorksMain
    } else if main == "authors"@ && sub == "main"@ {
        TableKind::AuthorsMain
    } else if main == "works"@ && sub == "authorships"@ {
        TableKind::Authorships
    } else if main == "works"@ && sub == "referenced_works"@ {
        TableKind::References
    } else if main == "works"@ && (sub == "locations"@ || sub == "topics"@) {
        TableKind::WorkParts
    } else {
        TableKind::Other
    }
}

/// The kind of the table `<main>/<sub>`.
pub fn table_kind(main: &str, sub: &str) -> (res: TableKind)
    ensures
        res == kind_of(main@, sub@),
{
    if str_eq(main, "works") {
        if str_eq(sub, "main") {
            TableKind::WorksMain
        } else if str_eq(sub, "authorships") {
            TableKind::Authorships
        } else if str_eq(sub, "referenced_works") {
            TableKind::References
        } else if str_eq(sub, "locations") || str_eq(sub, "topics") {
            TableKind::WorkParts
        } else {
            TableKind::Other
        }
    } else if str_eq(main, "authors") && str_eq(sub, "main") {
        TableKind::AuthorsMain
    } else {
        TableKind::Other
    }
}

/// The first column from `i` on named `name`, or the number of columns where none is.
pub open spec fn column_from(headers: Seq<Seq<char>>, name: Seq<char>, i: int) -> int
    decreases headers.len() - i,
{
    if i < 0 || i >= headers.len() {
        headers.len() as int
    } else if headers[i] == name {
        i
    } else {
        column_from(headers, name, i + 1)
    }
}

/// The first column named `name`, or the number of columns where none is.
pub open spec fn column(headers: Seq<Seq<char>>, name: Seq<char>) -> int {
    column_from(headers, name, 0)
}

/// The texts of a header's or a row's fields.
pub open spec fn texts(fields: Seq<String>) -> Seq<Seq<char>> {
    fields.map_values(|h: String| h@)
}

proof fn lemma_column_from(headers: Seq<Seq<char>>, name: Seq<char>, i: int)
    requires
        0 <= i <= headers.len(),
    ensures
        i <= column_from(headers, name, i) <= headers.len(),
    decreases headers.len() - i,
{
    if i < headers.len() && headers[i] != name {
        lemma_column_from(headers, name, i + 1);
    }
}

/// The first column named `name`.
fn find_column(headers: &Vec<String>, name: &str) -> (res: usize)
    requires
        column(texts(headers@), name@) < headers@.len(),
    ensures
        res == column(texts(headers@), name@),
{
    let ghost hs = texts(headers@);
    let mut i: usize = 0;
    while i < headers.len()
        invariant
            hs == texts(headers@),
            i <= headers@.len(),
            column(hs, name@) < headers@.len(),
            column(hs, name@) == column_from(hs, name@, i as int),
        decreases headers@.len() - i,
    {
        if str_eq(headers[i].as_str(), name) {
            return i;
        }
        i += 1;
    }
    i
}

/// The columns a table of this kind must name.
pub open spec fn needed(kind: TableKind) -> Seq<Seq<char>> {
    match kind {
        TableKind::WorksMain => seq!["id"@],
        TableKind::AuthorsMain => seq!["id"@],
        TableKind::Authorships => seq!["parent_id"@, "author"@],
        TableKind::References => seq!["parent_id"@, "referenced_work_id"@],
        TableKind::WorkParts => seq!["parent_id"@],
        TableKind::Other => seq![],
    }
}

/// The header names every column the table needs.
pub open spec fn has_columns(kind: TableKind, headers: Seq<Seq<char>>) -> bool {
    forall|k: int| 0 <= k < needed(kind).len() ==> column(headers, #[trigger] needed(kind)[k]) < headers.len()
}

/// The alias table of the ids.
pub open spec fn aliases_of(ledger: ResolvedLedger, ids: Ids) -> Map<u64, u64> {
    match ids {
        Ids::Authors => alias_pairs(ledger.author_aliases),
        Ids::Works => alias_pairs(ledger.work_aliases),
    }
}

/// The ledger merges ids of this kind.
pub open spec fn merges(ledger: ResolvedLedger, ids: Ids) -> bool {
    aliases_of(ledger, ids).dom().len() > 0
}

/// The id columns of a table that read through an alias table.
pub open spec fn aliased_all(kind: TableKind, headers: Seq<Seq<char>>) -> Seq<(usize, Ids)> {
    match kind {
        TableKind::Authorships => seq![
            (column(headers, "parent_id"@) as usize, Ids::Works),
            (column(headers, "author"@) as usize, Ids::Authors),
        ],
        TableKind::References => seq![
            (column(headers, "parent_id"@) as usize, Ids::Works),
            (column(headers, "referenced_work_id"@) as usize, Ids::Works),
        ],
        TableKind::WorkParts => seq![(column(headers, "parent_id"@) as usize, Ids::Works)],
        _ => seq![],
    }
}

/// A column whose alias table the ledger fills.
pub open spec fn merged_column(ledger: ResolvedLedger) -> spec_fn((usize, Ids)) -> bool {
    |p: (usize, Ids)| merges(ledger, p.1)
}

/// The id columns that read through an alias table, those whose table the ledger fills.
pub open spec fn aliased_plan(kind: TableKind, headers: Seq<Seq<char>>, ledger: ResolvedLedger) -> Seq<(usize, Ids)> {
    aliased_all(kind, headers).filter(merged_column(ledger))
}

/// The main id column, where the table is a main one and the ledger merges its ids.
pub open spec fn dropped_plan(kind: TableKind, headers: Seq<Seq<char>>, ledger: ResolvedLedger) -> Option<(usize, Ids)> {
    match kind {
        TableKind::WorksMain => if merges(ledger, Ids::Works) {
            Some((column(headers, "id"@) as usize, Ids::Works))
        } else {
            None
        },
        TableKind::AuthorsMain => if merges(ledger, Ids::Authors) {
            Some((column(headers, "id"@) as usize, Ids::Authors))
        } else {
            None
        },
        _ => None,
    }
}

/// The author and work columns of the authorships, where the ledger removes edges.
pub open spec fn edge_plan(kind: TableKind, headers: Seq<Seq<char>>, ledger: ResolvedLedger) -> Option<(usize, usize)> {
    if kind == TableKind::Authorships && edge_items(ledger.removed_edges).len() > 0 {
        Some((column(headers, "author"@) as usize, column(headers, "parent_id"@) as usize))
    } else {
        None
    }
}

/// The ledger changes nothing.
pub open spec fn ledger_empty(ledger: ResolvedLedger) -> bool {
    alias_pairs(ledger.author_aliases).dom().len() == 0 && alias_pairs(ledger.work_aliases).dom().len() == 0
        && edge_items(ledger.removed_edges).len() == 0
}

/// How the applied ledger reads the rows of one table.
pub struct Lens {
    /// (column, alias table): merged ids read as their keep id.
    pub aliased: Vec<(usize, Ids)>,
    /// The main id column: a merge's drop side has no row.
    pub dropped: Option<(usize, Ids)>,
    /// (author column, work column) of the authorships: a disowned edge has no row.
    pub edge: Option<(usize, usize)>,
}

/// Whether the alias table holds anything.
fn merges_any(m: &AliasMap) -> (res: bool)
    ensures
        res == (alias_pairs(*m).dom().len() > 0),
{
    let keys = m.keys();
    proof {
        keys@.unique_seq_to_set();
    }
    keys.len() > 0
}

impl Lens {
    /// The lens of the table `<main>/<sub>` with this header: nothing where the ledger changes
    /// nothing, the header is empty, the ledger does not reach the table, or reaches none of
    /// its columns.
    pub fn new(ledger: &ResolvedLedger, main: &str, sub: &str, headers: &Vec<String>) -> (res: Option<Lens>)
        requires
            !ledger_empty(*ledger) && headers@.len() > 0 ==> has_columns(kind_of(main@, sub@), texts(headers@)),
        ensures
            ({
                let kind = kind_of(main@, sub@);
                let hs = texts(headers@);
                let a = aliased_plan(kind, hs, *ledger);
                let d = dropped_plan(kind, hs, *ledger);
                let e = edge_plan(kind, hs, *ledger);
                match res {
                    None => ledger_empty(*ledger) || headers@.len() == 0 || (a.len() == 0 && d is None && e is None),
                    Some(l) => !ledger_empty(*ledger) && headers@.len() > 0 && l.aliased@ == a && l.dropped == d
                        && l.edge == e && (a.len() > 0 || d is Some || e is Some),
                }
            }),
    {
        if ledger.is_empty() || headers.len() == 0 {
            return None;
        }
        let kind = table_kind(main, sub);
        let ghost hs = texts(headers@);
        let has_a = merges_any(&ledger.author_aliases);
        let has_w = merges_any(&ledger.work_aliases);
        let edge_list = ledger.removed_edges.items();
        proof {
            edge_list@.unique_seq_to_set();
        }
        let has_e = edge_list.len() > 0;
        let mut all: Vec<(usize, Ids)> = Vec::new();
        let mut dropped: Option<(usize, Ids)> = None;
        let mut edge: Option<(usize, usize)> = None;
        match kind {
            TableKind::WorksMain => {
                proof {
                    assert(needed(kind)[0] == "id"@);
                }
                let c = find_column(headers, "id");
                proof {
                    assert(all@ =~= aliased_all(kind, hs));
                }
                if has_w {
                    dropped = Some((c, Ids::Works));
                }
            },
            TableKind::AuthorsMain => {
                proof {
                    assert(needed(kind)[0] == "id"@);
                }
                let c = find_column(headers, "id");
                proof {
                    assert(all@ =~= aliased_all(kind, hs));
                }
                if has_a {
                    dropped = Some((c, Ids::Authors));
                }
            },
            TableKind::Authorships => {
                proof {
                    assert(needed(kind)[0] == "parent_id"@);
                    assert(needed(kind)[1] == "author"@);
                }
                let work = find_column(headers, "parent_id");
                let author = find_column(headers, "author");
                all.push((work, Ids::Works));
                all.push((author, Ids::Authors));
                proof {
                    assert(all@ =~= aliased_all(kind, hs));
                }
                if has_e {
                    edge = Some((author, work));
                }
            },
            TableKind::References => {
                proof {
                    assert(needed(kind)[0] == "parent_id"@);
                    assert(needed(kind)[1] == "referenced_work_id"@);
                }
                let a = find_column(headers, "parent_id");
                let b = find_column(headers, "referenced_work_id");
                all.push((a, Ids::Works));
                all.push((b, Ids::Works));
                proof {
                    assert(all@ =~= aliased_all(kind, hs));
                }
            },
            TableKind::WorkParts => {
                proof {
                    assert(needed(kind)[0] == "parent_id"@);
                }
                let a = find_column(headers, "parent_id");
                all.push((a, Ids::Works));
                proof {
                    assert(all@ =~= aliased_all(kind, hs));
                }
            },
            TableKind::Other => {
                return None;
            },
        }
        let ghost full = all@;
        let mut aliased: Vec<(usize, Ids)> = Vec::new();
        let mut k: usize = 0;
        proof {
            reveal(Seq::filter);
            assert(full.take(0) =~= Seq::<(usize, Ids)>::empty());
        }
        while k < all.len()
            invariant
                k <= all@.len(),
                full == all@,
                has_a == merges(*ledger, Ids::Authors),
                has_w == merges(*ledger, Ids::Works),
                aliased@ == full.take(k as int).filter(merged_column(*ledger)),
            decreases all@.len() - k,
        {
            let p = all[k];
            let keep = match p.1 {
                Ids::Authors => has_a,
                Ids::Works => has_w,
            };
            proof {
                reveal(Seq::filter);
                assert(full.take(k + 1).drop_last() =~= full.take(k as int));
                assert(full.take(k + 1).last() == p);
            }
            if keep {
                aliased.push(p);
            }
            k += 1;
        }
        proof {
            assert(full.take(full.len() as int) =~= full);
            assert(aliased@ =~= aliased_plan(kind, hs, *ledger));
        }
        if aliased.len() == 0 && dropped.is_none() && edge.is_none() {
            return None;
        }
        Some(Lens { aliased, dropped, edge })
    }
}

/* Rows. */

/// The field holds an OpenAlex id's shape: long enough, its number starting on a character of
/// its own.
pub open spec fn id_field_ready(t: Seq<char>) -> bool {
    ID_NUMBER_START <= encode_utf8(t).len() && is_char_boundary(encode_utf8(t), ID_NUMBER_START as int)
}

/// The number of the id in the field, where it parses.
pub open spec fn field_id(t: Seq<char>) -> Option<u64> {
    match parse_u64_spec(encode_utf8(t).subrange(ID_NUMBER_START as int, encode_utf8(t).len() as int)) {
        Ok(v) => Some(v),
        Err(_) => None,
    }
}

/// The field with its trailing number replaced by `id`.
pub open spec fn with_id_text(t: Seq<char>, id: u64) -> Seq<char> {
    t.subrange(0, digit_tail_start(t) as int) + dec_digits(id as nat)
}

/// The character before the field's trailing number, where it has one, takes one byte.
pub open spec fn renumberable(t: Seq<char>) -> bool {
    digit_tail_start(t) == 0 || t[digit_tail_start(t) - 1] < '\u{80}'
}

/// The rewrite of one aliased column of the row, where its id is merged: the column, and the
/// field with the keep id in place of the id.
pub open spec fn rewrite_of(ledger: ResolvedLedger, rec: Seq<Seq<char>>, p: (usize, Ids)) -> Option<(usize, Seq<char>)> {
    match field_id(rec[p.0 as int]) {
        Some(id) => if aliases_of(ledger, p.1).dom().contains(id) {
            Some((p.0, with_id_text(rec[p.0 as int], aliases_of(ledger, p.1)[id])))
        } else {
            None
        },
        None => None,
    }
}

/// The rewrites of the aliased columns, in their order, all read from the row as it came.
pub open spec fn rewrites(aliased: Seq<(usize, Ids)>, ledger: ResolvedLedger, rec: Seq<Seq<char>>) -> Seq<(usize, Seq<char>)>
    decreases aliased.len(),
{
    if aliased.len() == 0 {
        Seq::empty()
    } else {
        let r = rewrites(aliased.drop_last(), ledger, rec);
        match rewrite_of(ledger, rec, aliased.last()) {
            Some(w) => r.push(w),
            None => r,
        }
    }
}

/// The row with the rewrites applied in order.
pub open spec fn applied(rec: Seq<Seq<char>>, ws: Seq<(usize, Seq<char>)>) -> Seq<Seq<char>>
    decreases ws.len(),
{
    if ws.len() == 0 {
        rec
    } else {
        applied(rec, ws.drop_last()).update(ws.last().0 as int, ws.last().1)
    }
}

/// The row as the ledger reads it: each merged id its keep id.
pub open spec fn rewritten(lens: Lens, ledger: ResolvedLedger, rec: Seq<Seq<char>>) -> Seq<Seq<char>> {
    applied(rec, rewrites(lens.aliased@, ledger, rec))
}

/// The row is the main row of a merge's drop side.
pub open spec fn drops_row(lens: Lens, ledger: ResolvedLedger, rec: Seq<Seq<char>>) -> bool {
    match lens.dropped {
        Some((c, ids)) => match field_id(rec[c as int]) {
            Some(id) => aliases_of(ledger, ids).dom().contains(id),
            None => false,
        },
        None => false,
    }
}

/// The row is an authorship the ledger removes.
pub open spec fn cuts_edge(lens: Lens, ledger: ResolvedLedger, rec: Seq<Seq<char>>) -> bool {
    match lens.edge {
        Some((ac, wc)) => match (field_id(rec[ac as int]), field_id(rec[wc as int])) {
            (Some(a), Some(w)) => edge_items(ledger.removed_edges).contains((a, w)),
            _ => false,
        },
        None => false,
    }
}

/// Every column of the lens is a field of the row.
pub open spec fn columns_in(lens: Lens, n: int) -> bool {
    &&& (lens.dropped matches Some((c, _)) ==> c < n)
    &&& (forall|k: int| 0 <= k < lens.aliased@.len() ==> (#[trigger] lens.aliased@[k]).0 < n)
    &&& (lens.edge matches Some((ac, wc)) ==> ac < n && wc < n)
}

/// The row passes through the lens without a read of it failing: every id it reads has an
/// id's shape, a field that takes a keep id has a one-byte character before its number, and
/// the authorship ids read after the rewrite have an id's shape too.
pub open spec fn row_ready(lens: Lens, ledger: ResolvedLedger, rec: Seq<Seq<char>>) -> bool {
    &&& columns_in(lens, rec.len() as int)
    &&& (lens.dropped matches Some((c, _)) ==> id_field_ready(rec[c as int]))
    &&& forall|k: int| 0 <= k < lens.aliased@.len() ==> id_field_ready(rec[(#[trigger] lens.aliased@[k]).0 as int])
        && (rewrite_of(ledger, rec, lens.aliased@[k]) is Some ==> renumberable(rec[lens.aliased@[k].0 as int]))
    &&& (!drops_row(lens, ledger, rec) ==> (lens.edge matches Some((ac, wc)) ==> id_field_ready(rewritten(lens, ledger, rec)[ac as int])
        && id_field_ready(rewritten(lens, ledger, rec)[wc as int])))
}

/// The keep id of an id, where the ledger merges it.
fn alias_root(ledger: &ResolvedLedger, ids: Ids, id: u64) -> (res: Option<u64>)
    ensures
        res == (if aliases_of(*ledger, ids).dom().contains(id) {
            Some(aliases_of(*ledger, ids)[id])
        } else {
            None
        }),
{
    match ids {
        Ids::Authors => ledger.author_aliases.get(id),
        Ids::Works => ledger.work_aliases.get(id),
    }
}

/// The id in a field of an id's shape.
pub(crate) fn read_id(field: &String) -> (res: Option<u64>)
    requires
        id_field_ready(field@),
    ensures
        res == field_id(field@),
{
    oa_id_parse_opt(field.as_str())
}

proof fn lemma_rewrites_columns(aliased: Seq<(usize, Ids)>, ledger: ResolvedLedger, rec: Seq<Seq<char>>, n: int)
    requires
        forall|k: int| 0 <= k < aliased.len() ==> (#[trigger] aliased[k]).0 < n,
    ensures
        forall|j: int| 0 <= j < rewrites(aliased, ledger, rec).len() ==> (#[trigger] rewrites(aliased, ledger, rec)[j]).0 < n,
    decreases aliased.len(),
{
    if aliased.len() > 0 {
        let front = aliased.drop_last();
        assert forall|k: int| 0 <= k < front.len() implies (#[trigger] front[k]).0 < n by {
            assert(front[k] == aliased[k]);
        }
        lemma_rewrites_columns(front, ledger, rec, n);
        assert(aliased[aliased.len() - 1].0 < n);
        let r = rewrites(front, ledger, rec);
        match rewrite_of(ledger, rec, aliased.last()) {
            Some(w) => {
                assert forall|j: int| 0 <= j < r.push(w).len() implies (#[trigger] r.push(w)[j]).0 < n by {
                    if j < r.len() {
                        assert(r.push(w)[j] == r[j]);
                    }
                }
            },
            None => {},
        }
    }
}

proof fn lemma_applied_len(rec: Seq<Seq<char>>, ws: Seq<(usize, Seq<char>)>)
    requires
        forall|j: int| 0 <= j < ws.len() ==> (#[trigger] ws[j]).0 < rec.len(),
    ensures
        applied(rec, ws).len() == rec.len(),
    decreases ws.len(),
{
    if ws.len() > 0 {
        let front = ws.drop_last();
        assert forall|j: int| 0 <= j < front.len() implies (#[trigger] front[j]).0 < rec.len() by {
            assert(front[j] == ws[j]);
        }
        lemma_applied_len(rec, front);
        assert(ws[ws.len() - 1].0 < rec.len());
    }
}

impl Lens {
    /// Rewrites the row in place, each merged id its keep id; false where the row does not
    /// exist under the ledger: the main row of a merge's drop side (left as it came), or an
    /// authorship the ledger removes, read after the rewrite.
    pub fn keeps(&self, ledger: &ResolvedLedger, rec: &mut Vec<String>) -> (res: bool)
        requires
            row_ready(*self, *ledger, texts(old(rec)@)),
        ensures
            res == (!drops_row(*self, *ledger, texts(old(rec)@)) && !cuts_edge(
                *self,
                *ledger,
                rewritten(*self, *ledger, texts(old(rec)@)),
            )),
            texts(final(rec)@) == (if drops_row(*self, *ledger, texts(old(rec)@)) {
                texts(old(rec)@)
            } else {
                rewritten(*self, *ledger, texts(old(rec)@))
            }),
    {
        let ghost r0 = texts(rec@);
        let ghost me = *self;
        if let Some((c, ids)) = self.dropped {
            if let Some(id) = read_id(&rec[c]) {
                if alias_root(ledger, ids, id).is_some() {
                    return false;
                }
            }
        }
        let mut cols: Vec<usize> = Vec::new();
        let mut news: Vec<String> = Vec::new();
        let mut k: usize = 0;
        while k < self.aliased.len()
            invariant
                me == *self,
                r0 == texts(rec@),
                row_ready(*self, *ledger, r0),
                k <= self.aliased@.len(),
                cols@.len() == news@.len(),
                rewrites(self.aliased@.take(k as int), *ledger, r0) == cols@.zip_with(texts(news@)),
            decreases self.aliased@.len() - k,
        {
            let (c, ids) = self.aliased[k];
            proof {
                assert(self.aliased@.take(k + 1).drop_last() =~= self.aliased@.take(k as int));
                assert(self.aliased@.take(k + 1).last() == self.aliased@[k as int]);
                assert(id_field_ready(r0[c as int]));
            }
            if let Some(id) = read_id(&rec[c]) {
                if let Some(root) = alias_root(ledger, ids, id) {
                    let s = with_id(rec[c].as_str(), root);
                    let ghost before = cols@.zip_with(texts(news@));
                    cols.push(c);
                    news.push(s);
                    proof {
                        assert(cols@.zip_with(texts(news@)) =~= before.push((c, s@)));
                    }
                }
            }
            k += 1;
        }
        proof {
            assert(self.aliased@.take(self.aliased@.len() as int) =~= self.aliased@);
        }
        let ghost ws = cols@.zip_with(texts(news@));
        let mut j: usize = 0;
        proof {
            assert(ws.take(0) =~= Seq::<(usize, Seq<char>)>::empty());
            lemma_rewrites_columns(self.aliased@, *ledger, r0, r0.len() as int);
        }
        while j < cols.len()
            invariant
                cols@.len() == news@.len(),
                ws == cols@.zip_with(texts(news@)),
                ws == rewrites(self.aliased@, *ledger, r0),
                forall|x: int| 0 <= x < ws.len() ==> (#[trigger] ws[x]).0 < r0.len(),
                j <= cols@.len(),
                texts(rec@) == applied(r0, ws.take(j as int)),
                rec@.len() == r0.len(),
            decreases cols@.len() - j,
        {
            let c = cols[j];
            let s = news[j].clone();
            proof {
                assert(ws[j as int] == (c, s@));
                assert(ws.take(j + 1).drop_last() =~= ws.take(j as int));
                assert(ws.take(j + 1).last() == ws[j as int]);
                assert(c < r0.len());
            }
            let ghost before = texts(rec@);
            rec.set(c, s);
            proof {
                assert(texts(rec@) =~= before.update(c as int, s@));
            }
            j += 1;
        }
        proof {
            assert(ws.take(ws.len() as int) =~= ws);
            lemma_applied_len(r0, ws);
        }
        if let Some((ac, wc)) = self.edge {
            let a = read_id(&rec[ac]);
            let w = read_id(&rec[wc]);
            if let (Some(a), Some(w)) = (a, w) {
                if ledger.removed_edges.contains((a, w)) {
                    return false;
                }
            }
        }
        true
    }
}

/* Merged ids read as keep ids. */

/// An OpenAlex id's text: ASCII, its prefix ending on a character that is no digit at the
/// place where the number starts, and digits from there to the end.
pub open spec fn standard_id(t: Seq<char>) -> bool {
    &&& t.len() > ID_NUMBER_START
    &&& is_ascii_chars(t)
    &&& !is_ascii_digit(t[ID_NUMBER_START - 1])
    &&& forall|i: int| ID_NUMBER_START <= i < t.len() ==> is_ascii_digit(#[trigger] t[i])
}

/// The bytes of ASCII characters.
pub open spec fn ascii_bytes(cs: Seq<char>) -> Seq<u8> {
    cs.map_values(|c: char| c as u8)
}

proof fn lemma_dec_digits(n: nat)
    ensures
        dec_digits(n).len() >= 1,
        forall|i: int| 0 <= i < dec_digits(n).len() ==> is_ascii_digit(#[trigger] dec_digits(n)[i]),
        crate::common::all_digits(ascii_bytes(dec_digits(n))),
        crate::common::digits_value(ascii_bytes(dec_digits(n))) == n,
    decreases n,
{
    let d = dec_digits(n);
    if n < 10 {
        assert(d == seq![crate::text::digit_char(n as int)]);
        assert((48 + n) as char as u8 == 48 + n);
        assert(ascii_bytes(d).drop_last() =~= Seq::<u8>::empty());
        assert(ascii_bytes(d).last() == 48 + n);
        assert(crate::common::digits_value(Seq::<u8>::empty()) == 0);
        assert(crate::common::digits_value(ascii_bytes(d)) == crate::common::digits_value(ascii_bytes(d).drop_last()) * 10
            + (ascii_bytes(d).last() - 48) as nat);
    } else {
        lemma_dec_digits(n / 10);
        let front = dec_digits(n / 10);
        let r = (n % 10) as int;
        assert(d == front.push(crate::text::digit_char(r)));
        assert((48 + r) as char as u8 == 48 + r);
        assert(ascii_bytes(d).drop_last() =~= ascii_bytes(front));
        assert(ascii_bytes(d).last() == 48 + r);
        vstd::arithmetic::div_mod::lemma_fundamental_div_mod(n as int, 10);
        assert(crate::common::digits_value(ascii_bytes(d)) == crate::common::digits_value(ascii_bytes(d).drop_last()) * 10
            + (ascii_bytes(d).last() - 48) as nat);
        assert(crate::common::digits_value(ascii_bytes(front)) == n / 10);
        assert((n / 10) * 10 + r == n);
        assert forall|i: int| 0 <= i < d.len() implies is_ascii_digit(#[trigger] d[i]) by {
            if i < front.len() {
                assert(d[i] == front[i]);
            }
        }
        assert forall|i: int| 0 <= i < ascii_bytes(d).len() implies 48 <= #[trigger] ascii_bytes(d)[i] <= 57 by {
            if i < front.len() {
                assert(ascii_bytes(d)[i] == ascii_bytes(front)[i]);
            }
        }
    }
}

proof fn lemma_parse_dec_digits(n: u64)
    ensures
        parse_u64_spec(ascii_bytes(dec_digits(n as nat))) == Ok::<u64, crate::common::IntParseError>(n),
{
    lemma_dec_digits(n as nat);
    let b = ascii_bytes(dec_digits(n as nat));
    assert(b[0] != 43u8);
    assert(crate::common::unsigned_digits(b) == b);
    crate::common::lemma_digit_run(b, b.len() as int);
    assert(b.subrange(0, b.len() as int) =~= b);
}

/// A standard id's field, given a new number, reads as that number.
pub proof fn lemma_renumbered_id(t: Seq<char>, id: u64)
    requires
        standard_id(t),
    ensures
        renumberable(t),
        field_id(with_id_text(t, id)) == Some(id),
        standard_id(with_id_text(t, id)),
{
    crate::identifiers::lemma_digit_tail_start(t, ID_NUMBER_START as int);
    lemma_dec_digits(id as nat);
    let digits = dec_digits(id as nat);
    let t2 = with_id_text(t, id);
    let pre = t.subrange(0, ID_NUMBER_START as int);
    assert(t2 == pre + digits);
    assert(is_ascii_chars(t2)) by {
        assert forall|i: int| 0 <= i < t2.len() implies '\0' <= #[trigger] t2[i] <= '\u{7f}' by {
            if i < pre.len() {
                assert(t2[i] == t[i]);
            } else {
                assert(t2[i] == digits[i - pre.len()]);
            }
        }
    }
    vstd::utf8::is_ascii_chars_encode_utf8(t2);
    let bytes = encode_utf8(t2);
    assert(bytes.subrange(ID_NUMBER_START as int, bytes.len() as int) =~= ascii_bytes(digits)) by {
        assert forall|i: int| 0 <= i < digits.len() implies bytes[ID_NUMBER_START + i] == #[trigger] ascii_bytes(digits)[i] by {
            assert(t2[ID_NUMBER_START + i] == digits[i]);
        }
    }
    lemma_parse_dec_digits(id);
    assert(t2[ID_NUMBER_START - 1] == t[ID_NUMBER_START - 1]);
    assert forall|i: int| ID_NUMBER_START <= i < t2.len() implies is_ascii_digit(#[trigger] t2[i]) by {
        assert(t2[i] == digits[i - ID_NUMBER_START]);
    }
}

/// The columns are all different.
pub open spec fn distinct_columns(aliased: Seq<(usize, Ids)>) -> bool {
    forall|a: int, b: int| 0 <= a < b < aliased.len() ==> aliased[a].0 != aliased[b].0
}

proof fn lemma_rewrites_skip(aliased: Seq<(usize, Ids)>, ledger: ResolvedLedger, rec: Seq<Seq<char>>, c: int)
    requires
        forall|k: int| 0 <= k < aliased.len() ==> (#[trigger] aliased[k]).0 < rec.len() && aliased[k].0 != c,
        0 <= c < rec.len(),
    ensures
        applied(rec, rewrites(aliased, ledger, rec))[c] == rec[c],
    decreases aliased.len(),
{
    if aliased.len() > 0 {
        let front = aliased.drop_last();
        assert forall|k: int| 0 <= k < front.len() implies (#[trigger] front[k]).0 < rec.len() && front[k].0 != c by {
            assert(front[k] == aliased[k]);
        }
        lemma_rewrites_skip(front, ledger, rec, c);
        lemma_rewrites_columns(front, ledger, rec, rec.len() as int);
        let ws = rewrites(front, ledger, rec);
        lemma_applied_len(rec, ws);
        assert(aliased[aliased.len() - 1].0 != c);
        assert(aliased[aliased.len() - 1].0 < rec.len());
        match rewrite_of(ledger, rec, aliased.last()) {
            Some(w) => {
                assert(w.0 == aliased.last().0);
                assert(ws.push(w).drop_last() =~= ws);
                assert(applied(rec, ws.push(w)) == applied(rec, ws).update(w.0 as int, w.1));
            },
            None => {},
        }
    }
}

proof fn lemma_rewritten_at(aliased: Seq<(usize, Ids)>, ledger: ResolvedLedger, rec: Seq<Seq<char>>, k: int)
    requires
        distinct_columns(aliased),
        forall|j: int| 0 <= j < aliased.len() ==> (#[trigger] aliased[j]).0 < rec.len(),
        0 <= k < aliased.len(),
    ensures
        applied(rec, rewrites(aliased, ledger, rec))[aliased[k].0 as int] == match rewrite_of(ledger, rec, aliased[k]) {
            Some(w) => w.1,
            None => rec[aliased[k].0 as int],
        },
    decreases aliased.len(),
{
    let front = aliased.drop_last();
    let c = aliased[k].0 as int;
    assert forall|j: int| 0 <= j < front.len() implies (#[trigger] front[j]).0 < rec.len() by {
        assert(front[j] == aliased[j]);
    }
    lemma_rewrites_columns(front, ledger, rec, rec.len() as int);
    lemma_applied_len(rec, rewrites(front, ledger, rec));
    let ws = rewrites(front, ledger, rec);
    assert(aliased.last().0 < rec.len());
    match rewrite_of(ledger, rec, aliased.last()) {
        Some(w) => {
            assert(w.0 == aliased.last().0);
            assert(ws.push(w).drop_last() =~= ws);
            assert(applied(rec, ws.push(w)) == applied(rec, ws).update(w.0 as int, w.1));
        },
        None => {},
    }
    if k == aliased.len() - 1 {
        assert forall|j: int| 0 <= j < front.len() implies (#[trigger] front[j]).0 < rec.len() && front[j].0 != c by {
            assert(front[j] == aliased[j]);
        }
        lemma_rewrites_skip(front, ledger, rec, c);
    } else {
        assert(distinct_columns(front)) by {
            assert forall|a: int, b: int| 0 <= a < b < front.len() implies front[a].0 != front[b].0 by {
                assert(front[a] == aliased[a] && front[b] == aliased[b]);
            }
        }
        assert(front[k] == aliased[k]);
        lemma_rewritten_at(front, ledger, rec, k);
        assert(aliased[aliased.len() - 1].0 != c);
    }
}

/// Once the lens has read a row, every merged id of its aliased columns is the id it merges
/// into: a field that held a merged id reads as the keep id, and keeps an id's shape.
pub proof fn law_merged_ids_read_as_keep_ids(lens: Lens, ledger: ResolvedLedger, rec: Seq<Seq<char>>, k: int)
    requires
        distinct_columns(lens.aliased@),
        columns_in(lens, rec.len() as int),
        0 <= k < lens.aliased@.len(),
        standard_id(rec[lens.aliased@[k].0 as int]),
        field_id(rec[lens.aliased@[k].0 as int]) matches Some(id) && aliases_of(ledger, lens.aliased@[k].1).dom().contains(id),
    ensures
        field_id(rewritten(lens, ledger, rec)[lens.aliased@[k].0 as int])
            == Some(aliases_of(ledger, lens.aliased@[k].1)[field_id(rec[lens.aliased@[k].0 as int])->0]),
        standard_id(rewritten(lens, ledger, rec)[lens.aliased@[k].0 as int]),
{
    let p = lens.aliased@[k];
    let id = field_id(rec[p.0 as int])->0;
    let root = aliases_of(ledger, p.1)[id];
    lemma_rewritten_at(lens.aliased@, ledger, rec, k);
    lemma_renumbered_id(rec[p.0 as int], root);
}

proof fn lemma_column_names(headers: Seq<Seq<char>>, name: Seq<char>)
    ensures
        column(headers, name) < headers.len() ==> headers[column(headers, name)] == name,
{
    lemma_column_found(headers, name, 0);
}

proof fn lemma_column_found(headers: Seq<Seq<char>>, name: Seq<char>, i: int)
    requires
        0 <= i,
    ensures
        column_from(headers, name, i) < headers.len() ==> headers[column_from(headers, name, i)] == name,
    decreases headers.len() - i,
{
    if i < headers.len() && headers[i] != name {
        lemma_column_found(headers, name, i + 1);
    }
}

/// The columns of a lens that `Lens::new` plans are all different.
pub proof fn lemma_plan_distinct(kind: TableKind, headers: Seq<Seq<char>>, ledger: ResolvedLedger)
    requires
        has_columns(kind, headers),
        headers.len() <= usize::MAX,
    ensures
        distinct_columns(aliased_plan(kind, headers, ledger)),
{
    reveal(Seq::filter);
    reveal_strlit("parent_id");
    reveal_strlit("author");
    reveal_strlit("referenced_work_id");
    let all = aliased_all(kind, headers);
    let pred = merged_column(ledger);
    if kind == TableKind::Authorships || kind == TableKind::References {
        let second: Seq<char> = if kind == TableKind::Authorships { "author"@ } else { "referenced_work_id"@ };
        assert(needed(kind)[0] == "parent_id"@);
        assert(needed(kind)[1] == second);
        lemma_column_names(headers, "parent_id"@);
        lemma_column_names(headers, second);
        assert("parent_id"@ != second) by {
            if kind == TableKind::Authorships {
                assert("parent_id"@.len() != "author"@.len());
            } else {
                assert("parent_id"@.len() != "referenced_work_id"@.len());
            }
        }
        let c0 = column(headers, "parent_id"@);
        let c1 = column(headers, second);
        lemma_column_from(headers, "parent_id"@, 0);
        lemma_column_from(headers, second, 0);
        assert(c0 != c1);
        assert(all[0].0 == c0 as usize && all[1].0 == c1 as usize);
        assert(all[0].0 != all[1].0);
        let e = Seq::<(usize, Ids)>::empty();
        assert(seq![all[0]].drop_last() =~= e);
        assert(all.drop_last() =~= seq![all[0]]);
        assert(e.filter(pred) =~= e);
        let f1 = seq![all[0]].filter(pred);
        assert(f1 == (if pred(all[0]) { e.filter(pred).push(all[0]) } else { e.filter(pred) }));
        let f2 = all.filter(pred);
        assert(f2 == (if pred(all[1]) { f1.push(all[1]) } else { f1 }));
        assert(f2.len() <= 2);
        assert(f2.len() == 2 ==> f2[0] == all[0] && f2[1] == all[1]);
    } else {
        if all.len() == 1 {
            assert(all.drop_last() =~= Seq::<(usize, Ids)>::empty());
        }
    }
}

} // verus!
