//! The lookup of a key among the sorted records of a map file: a binary search that reads one
//! record's key at a time, so that the file never has to be read whole. The caller reads what
//! each step asks for and hands back what it read.
use vstd::prelude::*;
use crate::records::strictly_ascending;
use crate::sorting::{lemma_lex_order, lex_lt};

verus! {

/// Where a search stands: records `lo..=hi` may still hold the key, and record `mid` is the
/// one to read next.
#[derive(Debug, Clone, Copy, PartialEq, Eq, Structural)]
pub struct RecordSearch {
    pub lo: u64,
    pub hi: u64,
    pub mid: u64,
}

/// What a search asks for next.
#[derive(Debug, Clone, Copy, PartialEq, Eq, Structural)]
pub enum SearchStep {
    /// The key of this record.
    ReadKey(u64),
    /// The value of this record, whose key is the one sought.
    ReadValue(u64),
    /// No record holds the key.
    Missing,
}

/// What one read does to a search.
pub enum Advance {
    /// The search goes on over `lo..=hi`.
    Next(int, int),
    /// The key is at this record.
    Found(int),
    /// No record holds the key.
    Missing,
}

/// What a search over `lo..=hi` does with the key read at `mid`, or with a read that failed:
/// a key below the one sought moves the search above `mid`, a key above it below `mid`, and
/// an equal key ends it there; an empty stretch, or a failed read, ends it with nothing.
pub open spec fn advance(lo: int, hi: int, mid: int, read: Option<Seq<u8>>, k: Seq<u8>) -> Advance {
    match read {
        None => Advance::Missing,
        Some(key) => {
            if lex_lt(key, k) {
                if mid + 1 > hi {
                    Advance::Missing
                } else {
                    Advance::Next(mid + 1, hi)
                }
            } else if lex_lt(k, key) {
                if mid == 0 || lo > mid - 1 {
                    Advance::Missing
                } else {
                    Advance::Next(lo, mid - 1)
                }
            } else {
                Advance::Found(mid)
            }
        },
    }
}

/// The most records a map file can hold: far more than any file does.
pub const MAX_RECORDS: u64 = 0x4000_0000_0000_0000;

impl RecordSearch {
    /// The record the search reads first, the one in the middle of `count`.
    pub fn start(count: u64) -> (res: (RecordSearch, SearchStep))
        requires
            count < MAX_RECORDS,
        ensures
            res.0 == (RecordSearch { lo: 0, hi: count, mid: count / 2 }),
            res.1 == SearchStep::ReadKey(count / 2),
    {
        let mid = count / 2;
        (RecordSearch { lo: 0, hi: count, mid }, SearchStep::ReadKey(mid))
    }

    /// The next step after reading the key of record `mid` (nothing where the read failed),
    /// compared byte by byte with the key sought.
    pub fn step(&mut self, read: Option<&[u8]>, sought: &[u8]) -> (res: SearchStep)
        requires
            old(self).lo <= old(self).mid <= old(self).hi < MAX_RECORDS,
            read matches Some(key) ==> key@.len() == sought@.len(),
        ensures
            match advance(
                old(self).lo as int,
                old(self).hi as int,
                old(self).mid as int,
                match read {
                    Some(key) => Some(key@),
                    None => None,
                },
                sought@,
            ) {
                Advance::Next(l, h) => final(self).lo == l && final(self).hi == h && final(self).mid == (l + h) / 2
                    && res == SearchStep::ReadKey(final(self).mid),
                Advance::Found(m) => res == SearchStep::ReadValue(m as u64) && *final(self) == *old(self),
                Advance::Missing => res == SearchStep::Missing && *final(self) == *old(self),
            },
    {
        let key = match read {
            None => {
                return SearchStep::Missing;
            },
            Some(key) => key,
        };
        let n = sought.len();
        let mut i: usize = 0;
        while i < n
            invariant
                *self == *old(self),
                old(self).lo <= old(self).mid <= old(self).hi < MAX_RECORDS,
                read == Some(key),
                n == sought@.len(),
                key@.len() == n,
                i <= n,
                key@.subrange(0, i as int) == sought@.subrange(0, i as int),
            decreases n - i,
        {
            if key[i] < sought[i] {
                proof {
                    lemma_lex_first_difference(key@, sought@, i as int);
                }
                if self.mid + 1 > self.hi {
                    return SearchStep::Missing;
                }
                self.lo = self.mid + 1;
                self.mid = (self.lo + self.hi) / 2;
                return SearchStep::ReadKey(self.mid);
            } else if key[i] > sought[i] {
                proof {
                    lemma_lex_first_difference(sought@, key@, i as int);
                }
                if self.mid == 0 || self.lo > self.mid - 1 {
                    return SearchStep::Missing;
                }
                self.hi = self.mid - 1;
                self.mid = (self.lo + self.hi) / 2;
                return SearchStep::ReadKey(self.mid);
            }
            proof {
                assert(key@.subrange(0, i + 1) =~= key@.subrange(0, i as int).push(key@[i as int]));
                assert(sought@.subrange(0, i + 1) =~= sought@.subrange(0, i as int).push(sought@[i as int]));
            }
            i += 1;
        }
        proof {
            assert(key@.subrange(0, n as int) =~= key@);
            assert(sought@.subrange(0, n as int) =~= sought@);
            assert(key@ =~= sought@);
            lemma_lex_order(key@, sought@, sought@);
        }
        SearchStep::ReadValue(self.mid)
    }
}

/// Where two texts of one length first differ, the smaller byte makes the smaller text.
proof fn lemma_lex_first_difference(a: Seq<u8>, b: Seq<u8>, i: int)
    requires
        a.len() == b.len(),
        0 <= i < a.len(),
        a.subrange(0, i) == b.subrange(0, i),
        a[i] < b[i],
    ensures
        lex_lt(a, b),
        !lex_lt(b, a),
    decreases i,
{
    if i > 0 {
        assert(a[0] == a.subrange(0, i)[0]);
        assert(b[0] == b.subrange(0, i)[0]);
        assert(a.drop_first().subrange(0, i - 1) =~= a.subrange(0, i).drop_first());
        assert(b.drop_first().subrange(0, i - 1) =~= b.subrange(0, i).drop_first());
        lemma_lex_first_difference(a.drop_first(), b.drop_first(), i - 1);
    }
}

/// Where a whole search over `lo..=hi` of the records with these keys ends: each read gives
/// the key of the record asked for, and fails past the last record.
pub open spec fn search_from(keys: Seq<Seq<u8>>, k: Seq<u8>, lo: int, hi: int) -> Option<int>
    decreases hi - lo,
{
    let mid = (lo + hi) / 2;
    let read = if 0 <= mid < keys.len() { Some(keys[mid]) } else { None };
    match advance(lo, hi, mid, read, k) {
        Advance::Next(l, h) => if lo <= l <= h <= hi && h - l < hi - lo {
            search_from(keys, k, l, h)
        } else {
            None
        },
        Advance::Found(m) => Some(m),
        Advance::Missing => None,
    }
}

proof fn lemma_search_from(keys: Seq<Seq<u8>>, k: Seq<u8>, lo: int, hi: int)
    requires
        strictly_ascending(keys),
        0 <= lo <= hi <= keys.len(),
        forall|j: int| 0 <= j < keys.len() && keys[j] == k ==> lo <= j <= hi,
    ensures
        match search_from(keys, k, lo, hi) {
            Some(i) => 0 <= i < keys.len() && keys[i] == k,
            None => !keys.contains(k),
        },
    decreases hi - lo,
{
    let mid = (lo + hi) / 2;
    if mid >= keys.len() {
        assert(lo == keys.len());
    } else {
        let key = keys[mid];
        lemma_lex_order(key, k, k);
        lemma_lex_order(k, key, key);
        assert forall|j: int| 0 <= j < keys.len() && keys[j] == k && j <= mid implies !lex_lt(key, k) by {
            if j < mid {
                assert(lex_lt(keys[j], keys[mid]));
            }
        }
        assert forall|j: int| 0 <= j < keys.len() && keys[j] == k && j >= mid implies !lex_lt(k, key) by {
            if j > mid {
                assert(lex_lt(keys[mid], keys[j]));
            }
        }
        if lex_lt(key, k) {
            if mid + 1 <= hi {
                lemma_search_from(keys, k, mid + 1, hi);
            }
        } else if lex_lt(k, key) {
            if !(mid == 0 || lo > mid - 1) {
                lemma_search_from(keys, k, lo, mid - 1);
            }
        }
    }
}

/// A search among records sorted by key, starting as `RecordSearch::start` starts it, ends
/// on a record that holds the key sought, and ends with nothing exactly where no record does:
/// what a map file stores is what a lookup finds.
pub proof fn law_search_finds_stored_keys(keys: Seq<Seq<u8>>, k: Seq<u8>)
    requires
        strictly_ascending(keys),
    ensures
        match search_from(keys, k, 0, keys.len() as int) {
            Some(i) => 0 <= i < keys.len() && keys[i] == k,
            None => !keys.contains(k),
        },
{
    lemma_search_from(keys, k, 0, keys.len() as int);
}

} // verus!
