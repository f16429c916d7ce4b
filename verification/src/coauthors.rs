//! Co-authorship counts: for each author, the other authors of their works and how often
//! each is listed, counted up to a cap.
use vstd::prelude::*;
use crate::id_collections::{
    count_map_get, count_map_insert, count_map_into_pairs, count_map_new, count_pairs,
};

verus! {

/// The most times a co-author is counted.
pub const COAUTHOR_CAP: u8 = 201;

/// How many times `c` occurs in `s`.
pub open spec fn count_in(s: Seq<u32>, c: u32) -> nat
    decreases s.len(),
{
    if s.len() == 0 {
        0
    } else {
        count_in(s.drop_last(), c) + if s.last() == c {
            1nat
        } else {
            0nat
        }
    }
}

/// How many times `c` is listed among the authors of the works `works`, work by work.
pub open spec fn times_listed(works: Seq<u32>, work_authors: Seq<Vec<u32>>, c: u32) -> nat
    decreases works.len(),
{
    if works.len() == 0 {
        0
    } else {
        times_listed(works.drop_last(), work_authors, c) + count_in(
            work_authors[works.last() as int]@,
            c,
        )
    }
}

/// `n`, but at most the cap.
pub open spec fn capped(n: nat) -> nat {
    if n > COAUTHOR_CAP {
        COAUTHOR_CAP as nat
    } else {
        n
    }
}

/// `row` lists, each once, every author other than `a` who is listed among the authors of
/// `works`, with how often, up to the cap.
pub open spec fn coauthor_row(row: Seq<(u32, u8)>, a: int, works: Seq<u32>, work_authors: Seq<Vec<u32>>) -> bool {
    &&& forall|i: int, j: int| 0 <= i < j < row.len() ==> row[i].0 != row[j].0
    &&& forall|i: int|
        0 <= i < row.len() ==> (#[trigger] row[i]).0 as int != a && times_listed(
            works,
            work_authors,
            row[i].0,
        ) > 0 && row[i].1 as nat == capped(times_listed(works, work_authors, row[i].0))
    &&& forall|c: u32|
        c as int != a && #[trigger] times_listed(works, work_authors, c) > 0 ==> exists|i: int|
            0 <= i < row.len() && (#[trigger] row[i]).0 == c
}

/// The works point at work records.
pub open spec fn works_in_range(works: Seq<u32>, n: int) -> bool {
    forall|k: int| 0 <= k < works.len() ==> (#[trigger] works[k]) < n
}

/// The co-authors of author `aid`, with how often each is listed among the authors of `works`.
fn author_coauthors(aid: usize, works: &Vec<u32>, work_authors: &Vec<Vec<u32>>) -> (row: Vec<(u32, u8)>)
    requires
        works_in_range(works@, work_authors@.len() as int),
    ensures
        coauthor_row(row@, aid as int, works@, work_authors@),
{
    let mut m = count_map_new();
    let mut wi: usize = 0;
    proof {
        assert(works@.take(0) =~= Seq::<u32>::empty());
    }
    while wi < works.len()
        invariant
            wi <= works@.len(),
            works_in_range(works@, work_authors@.len() as int),
            forall|c: u32|
                (#[trigger] count_pairs(m).dom().contains(c)) == (c as int != aid as int && times_listed(
                    works@.take(wi as int),
                    work_authors@,
                    c,
                ) > 0),
            forall|c: u32|
                #[trigger] count_pairs(m).dom().contains(c) ==> count_pairs(m)[c] as nat == capped(
                    times_listed(works@.take(wi as int), work_authors@, c),
                ),
        decreases works@.len() - wi,
    {
        let wid = works[wi] as usize;
        proof {
            assert(works@[wi as int] < work_authors@.len());
        }
        let authors = &work_authors[wid];
        let ghost done = works@.take(wi as int);
        let mut ci: usize = 0;
        proof {
            assert(authors@.take(0) =~= Seq::<u32>::empty());
        }
        while ci < authors.len()
            invariant
                ci <= authors@.len(),
                forall|c: u32|
                    (#[trigger] count_pairs(m).dom().contains(c)) == (c as int != aid as int && times_listed(
                        done,
                        work_authors@,
                        c,
                    ) + count_in(authors@.take(ci as int), c) > 0),
                forall|c: u32|
                    #[trigger] count_pairs(m).dom().contains(c) ==> count_pairs(m)[c] as nat == capped(
                        times_listed(done, work_authors@, c) + count_in(authors@.take(ci as int), c),
                    ),
            decreases authors@.len() - ci,
        {
            let c = authors[ci];
            proof {
                assert(authors@.take(ci + 1).drop_last() =~= authors@.take(ci as int));
                assert(authors@.take(ci + 1).last() == c);
            }
            if c as usize != aid {
                match count_map_get(&m, c) {
                    Some(v) => {
                        if v <= 200 {
                            count_map_insert(&mut m, c, v + 1);
                        }
                    },
                    None => {
                        count_map_insert(&mut m, c, 1);
                    },
                }
            }
            ci += 1;
        }
        proof {
            assert(authors@.take(ci as int) =~= authors@);
            assert(works@.take(wi + 1).drop_last() =~= done);
            assert(works@.take(wi + 1).last() == works@[wi as int]);
        }
        wi += 1;
    }
    proof {
        assert(works@.take(wi as int) =~= works@);
    }
    let ghost pairs = count_pairs(m);
    let row = count_map_into_pairs(m);
    proof {
        let wa = work_authors@;
        assert forall|i: int| 0 <= i < row@.len() implies (#[trigger] row@[i]).0 as int != aid as int
            && times_listed(works@, wa, row@[i].0) > 0 && row@[i].1 as nat == capped(
            times_listed(works@, wa, row@[i].0),
        ) by {
            assert(pairs.dom().contains(row@[i].0));
        }
        assert forall|c: u32| c as int != aid as int && #[trigger] times_listed(works@, wa, c) > 0 implies exists|i: int|
            0 <= i < row@.len() && (#[trigger] row@[i]).0 == c by {
            assert(pairs.dom().contains(c));
        }
        assert forall|i: int, j: int| 0 <= i < j < row@.len() implies row@[i].0 != row@[j].0 by {
            if row@[i].0 == row@[j].0 {
                assert(row@[i].1 == pairs[row@[i].0]);
                assert(row@[j].1 == pairs[row@[j].0]);
                assert(row@[i] == row@[j]);
            }
        }
    }
    row
}

/// Each author's co-authors: the other authors listed on the author's works, each once, with
/// how often, up to 201; the order within a row is left open.
pub fn coauthor_counts(author_works: &Vec<Vec<u32>>, work_authors: &Vec<Vec<u32>>) -> (res: Vec<Vec<(u32, u8)>>)
    requires
        forall|a: int|
            0 <= a < author_works@.len() ==> works_in_range(
                (#[trigger] author_works@[a])@,
                work_authors@.len() as int,
            ),
    ensures
        res@.len() == author_works@.len(),
        forall|a: int|
            0 <= a < res@.len() ==> coauthor_row(
                (#[trigger] res@[a])@,
                a,
                author_works@[a]@,
                work_authors@,
            ),
{
    let mut res: Vec<Vec<(u32, u8)>> = Vec::new();
    let mut a: usize = 0;
    while a < author_works.len()
        invariant
            a <= author_works@.len(),
            res@.len() == a,
            forall|k: int|
                0 <= k < author_works@.len() ==> works_in_range(
                    (#[trigger] author_works@[k])@,
                    work_authors@.len() as int,
                ),
            forall|k: int|
                0 <= k < a ==> coauthor_row((#[trigger] res@[k])@, k, author_works@[k]@, work_authors@),
        decreases author_works@.len() - a,
    {
        let row = author_coauthors(a, &author_works[a], work_authors);
        res.push(row);
        a += 1;
    }
    res
}

} // verus!
