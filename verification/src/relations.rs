use vstd::prelude::*;

verus! {

/// How an institution relates to another over a stretch of years: its papers and citations.
#[derive(Debug, Clone, Copy, PartialEq, Eq)]
pub struct InstRelation {
    pub start: u8,
    pub end: u8,
    pub inst: u16,
    pub papers: u32,
    pub citations: u32,
}

} // verus!
