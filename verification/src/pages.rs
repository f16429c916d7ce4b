//! Which entities get a page: a name with some text, more than one paper and more than two
//! citations, and for authors a test of their own.
use vstd::prelude::*;
use vstd::string::*;
use crate::identifiers::{trim, trimmed};

verus! {

/// Whether the entity gets a page: a name that is not all whitespace, more than one paper,
/// more than two citations, and its own test.
pub fn page_filter(name: &str, cites: usize, papers: usize, extra: bool) -> (res: u8)
    ensures
        res == (if trimmed(name@).len() > 0 && papers > 1 && cites > 2 && extra {
            1u8
        } else {
            0u8
        }),
{
    let t = trim(name);
    let base = t.unicode_len() > 0 && papers > 1 && cites > 2;
    if base && extra {
        1
    } else {
        0
    }
}

/// The most papers an author with a page has, unless pinned.
pub const MAX_AUTHOR_PAPERS: usize = 10000;

/// The most papers an author with a page has in one year, unless pinned.
pub const MAX_AUTHOR_YEARLY_PAPERS: u32 = 300;

/// An author's own test for a page: pinned, or fewer than 10,000 papers, fewer than 300 in
/// every year and not blacklisted.
pub fn author_page_test(pinned: bool, papers: usize, yearly_papers: &Vec<u32>, blacklisted: bool) -> (res: bool)
    ensures
        res == (pinned || (papers < MAX_AUTHOR_PAPERS && (forall|k: int|
            0 <= k < yearly_papers@.len() ==> #[trigger] yearly_papers@[k] < MAX_AUTHOR_YEARLY_PAPERS)
            && !blacklisted)),
{
    if pinned {
        return true;
    }
    if papers >= MAX_AUTHOR_PAPERS || blacklisted {
        return false;
    }
    let mut k: usize = 0;
    while k < yearly_papers.len()
        invariant
            k <= yearly_papers@.len(),
            !pinned,
            !blacklisted,
            papers < MAX_AUTHOR_PAPERS,
            forall|j: int| 0 <= j < k ==> #[trigger] yearly_papers@[j] < MAX_AUTHOR_YEARLY_PAPERS,
        decreases yearly_papers@.len() - k,
    {
        if yearly_papers[k] >= MAX_AUTHOR_YEARLY_PAPERS {
            assert(!(yearly_papers@[k as int] < MAX_AUTHOR_YEARLY_PAPERS));
            return false;
        }
        k += 1;
    }
    true
}

} // verus!
