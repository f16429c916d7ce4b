//! The user ledger: merges, disowns, claims and pinned owners that users recorded, decided
//! once against the ids of the snapshot.
use vstd::prelude::*;
use crate::id_collections::{
    alias_pairs, edge_items, id_items, text_id_pairs, text_items, AliasMap, EdgeSet, IdSet,
    TextIdMap, TextSet,
};
use crate::identifiers::{bare_doi, bare_orcid, canonical_doi, normalize_orcid};
use crate::words::lowercased;
use crate::sorting::{in_key_order, is_permutation, lemma_lex_order, lex_lt, stable_order};
use vstd::utf8::encode_utf8;

verus! {

/* Aliases and their roots. */

/// An id that maps to nothing else: not a key, or mapped to itself.
pub open spec fn is_root(m: Map<u64, u64>, x: u64) -> bool {
    !m.dom().contains(x) || m[x] == x
}

/// Where `n` steps along the map from `x` lead, stopping at a root.
pub open spec fn follow(m: Map<u64, u64>, x: u64, n: nat) -> u64
    decreases n,
{
    if n == 0 || is_root(m, x) {
        x
    } else {
        follow(m, m[x], (n - 1) as nat)
    }
}

/// The root an id leads to, within as many steps as the map has keys.
pub open spec fn root_of(m: Map<u64, u64>, x: u64) -> u64 {
    follow(m, x, m.dom().len())
}

/// Every key leads to a root within as many steps as the map has keys: no chain of aliases
/// runs in a circle.
pub open spec fn settles(m: Map<u64, u64>) -> bool {
    &&& m.dom().finite()
    &&& forall|x: u64| m.dom().contains(x) ==> is_root(m, #[trigger] root_of(m, x))
}

/// Each key mapped straight to its root.
pub open spec fn compressed(m: Map<u64, u64>) -> Map<u64, u64> {
    Map::new(|k: u64| m.dom().contains(k), |k: u64| root_of(m, k))
}

proof fn lemma_follow_step(m: Map<u64, u64>, x: u64, n: nat)
    ensures
        follow(m, x, n + 1) == (if is_root(m, follow(m, x, n)) {
            follow(m, x, n)
        } else {
            m[follow(m, x, n)]
        }),
    decreases n,
{
    if is_root(m, x) {
        assert(follow(m, x, n + 1) == x);
        assert(follow(m, x, n) == x);
    } else if n == 0 {
        assert(follow(m, x, 1) == follow(m, m[x], 0));
        assert(follow(m, m[x], 0) == m[x]);
    } else {
        lemma_follow_step(m, m[x], (n - 1) as nat);
        assert(follow(m, x, n + 1) == follow(m, m[x], n));
        assert(follow(m, x, n) == follow(m, m[x], (n - 1) as nat));
    }
}

/// Once a root is reached, more steps stay there.
proof fn lemma_follow_stable(m: Map<u64, u64>, x: u64, n: nat, k: nat)
    requires
        is_root(m, follow(m, x, n)),
        n <= k,
    ensures
        follow(m, x, k) == follow(m, x, n),
    decreases k,
{
    if k > n {
        lemma_follow_stable(m, x, n, (k - 1) as nat);
        lemma_follow_step(m, x, (k - 1) as nat);
    }
}

/// Two roots reached from one id are the same.
proof fn lemma_roots_agree(m: Map<u64, u64>, x: u64, n: nat, k: nat)
    requires
        is_root(m, follow(m, x, n)),
        is_root(m, follow(m, x, k)),
    ensures
        follow(m, x, k) == follow(m, x, n),
{
    if n <= k {
        lemma_follow_stable(m, x, n, k);
    } else {
        lemma_follow_stable(m, x, k, n);
    }
}

/// A map each of whose keys maps as `m0` does or straight to its root in `m0`.
pub open spec fn shortcut_of(cm: Map<u64, u64>, m0: Map<u64, u64>) -> bool {
    &&& cm.dom() == m0.dom()
    &&& forall|k: u64| cm.dom().contains(k) ==> (#[trigger] cm[k] == m0[k] || cm[k] == root_of(m0, k))
}

/// Following a shortcut map leads where following `m0` does.
proof fn lemma_shortcut_follow(cm: Map<u64, u64>, m0: Map<u64, u64>, x: u64, n: nat)
    requires
        settles(m0),
        shortcut_of(cm, m0),
        is_root(m0, follow(m0, x, n)),
    ensures
        follow(cm, x, n) == follow(m0, x, n),
    decreases n,
{
    if n == 0 {
    } else if is_root(m0, x) {
        if m0.dom().contains(x) {
            assert(cm[x] == m0[x] || cm[x] == root_of(m0, x));
            assert(root_of(m0, x) == x) by {
                lemma_follow_stable(m0, x, 0, m0.dom().len());
            }
        }
    } else {
        let r = follow(m0, x, n);
        assert(r == follow(m0, m0[x], (n - 1) as nat));
        assert(is_root(m0, root_of(m0, x)));
        lemma_roots_agree(m0, x, n, m0.dom().len());
        if cm[x] == m0[x] {
            lemma_shortcut_follow(cm, m0, m0[x], (n - 1) as nat);
        } else {
            assert(cm[x] == r);
            if m0.dom().contains(r) {
                assert(cm[r] == m0[r] || cm[r] == root_of(m0, r));
                assert(root_of(m0, r) == r) by {
                    lemma_follow_stable(m0, r, 0, m0.dom().len());
                }
            }
            assert(is_root(cm, r));
            if n - 1 > 0 {
                assert(follow(cm, r, (n - 1) as nat) == r);
            }
        }
    }
}

/// A shortcut of a map that settles settles too, with the same roots.
proof fn lemma_shortcut_roots(cm: Map<u64, u64>, m0: Map<u64, u64>)
    requires
        settles(m0),
        shortcut_of(cm, m0),
    ensures
        settles(cm),
        forall|x: u64| #[trigger] root_of(cm, x) == root_of(m0, x),
{
    assert forall|x: u64| #[trigger] root_of(cm, x) == root_of(m0, x) by {
        if m0.dom().contains(x) {
            assert(is_root(m0, root_of(m0, x)));
            lemma_shortcut_follow(cm, m0, x, m0.dom().len());
        } else {
            assert(!cm.dom().contains(x));
        }
    }
    assert forall|x: u64| cm.dom().contains(x) implies is_root(cm, #[trigger] root_of(cm, x)) by {
        let r = root_of(m0, x);
        assert(is_root(m0, r));
        if m0.dom().contains(r) {
            assert(cm[r] == m0[r] || cm[r] == root_of(m0, r));
            assert(root_of(m0, r) == r) by {
                lemma_follow_stable(m0, r, 0, m0.dom().len());
            }
        }
    }
}

/// The root an id leads to.
pub fn find_root(id: u64, map: &AliasMap) -> (res: u64)
    requires
        settles(alias_pairs(*map)),
    ensures
        res == root_of(alias_pairs(*map), id),
{
    let ghost m = alias_pairs(*map);
    let ghost len = m.dom().len();
    let mut cur = id;
    let ghost mut n: nat = 0;
    proof {
        if m.dom().contains(id) {
            assert(is_root(m, root_of(m, id)));
        } else {
            lemma_follow_stable(m, id, 0, len);
        }
    }
    loop
        invariant
            m == alias_pairs(*map),
            len == m.dom().len(),
            n <= len,
            cur == follow(m, id, n),
            is_root(m, follow(m, id, len)),
        decreases len - n,
    {
        match map.get(cur) {
            Some(next) => {
                if next != cur {
                    proof {
                        if n == len {
                            assert(false);
                        }
                        lemma_follow_step(m, id, n);
                    }
                    cur = next;
                    proof {
                        n = n + 1;
                    }
                } else {
                    proof {
                        lemma_follow_stable(m, id, n, len);
                    }
                    return cur;
                }
            },
            None => {
                proof {
                    lemma_follow_stable(m, id, n, len);
                }
                return cur;
            },
        }
    }
}

/// Maps every key straight to its root.
pub fn path_compress(map: &mut AliasMap)
    requires
        settles(alias_pairs(*old(map))),
    ensures
        alias_pairs(*final(map)) == compressed(alias_pairs(*old(map))),
{
    let ghost m0 = alias_pairs(*map);
    let keys = map.keys();
    let mut i: usize = 0;
    proof {
        assert(shortcut_of(m0, m0));
    }
    while i < keys.len()
        invariant
            m0 == alias_pairs(*old(map)),
            settles(m0),
            keys@.no_duplicates(),
            keys@.to_set() == m0.dom(),
            i <= keys@.len(),
            shortcut_of(alias_pairs(*map), m0),
            forall|j: int| 0 <= j < i ==> #[trigger] alias_pairs(*map)[keys@[j]] == root_of(m0, keys@[j]),
        decreases keys@.len() - i,
    {
        let k = keys[i];
        let ghost cm = alias_pairs(*map);
        proof {
            lemma_shortcut_roots(cm, m0);
            assert(keys@.to_set().contains(k));
        }
        let root = find_root(k, map);
        map.insert(k, root);
        proof {
            let cm2 = alias_pairs(*map);
            assert(cm2.dom() =~= m0.dom());
            assert forall|j: int| 0 <= j < i + 1 implies #[trigger] cm2[keys@[j]] == root_of(m0, keys@[j]) by {
                if j < i {
                    assert(keys@[j] != k);
                }
            }
        }
        i += 1;
    }
    proof {
        let cm = alias_pairs(*map);
        assert forall|k: u64| cm.dom().contains(k) implies cm[k] == root_of(m0, k) by {
            assert(keys@.to_set().contains(k));
            let j = choose|j: int| 0 <= j < keys@.len() && keys@[j] == k;
        }
        assert(cm =~= compressed(m0));
    }
}

/// A compressed map points every key at a root, so compressing it again changes nothing.
pub proof fn law_compression_lands_on_roots(m: Map<u64, u64>)
    requires
        settles(m),
    ensures
        forall|k: u64| m.dom().contains(k) ==> is_root(compressed(m), #[trigger] compressed(m)[k]),
        settles(compressed(m)),
        compressed(compressed(m)) == compressed(m),
        forall|x: u64| #[trigger] root_of(compressed(m), x) == root_of(m, x),
{
    let c = compressed(m);
    assert(c.dom() =~= m.dom());
    assert(shortcut_of(c, m));
    lemma_shortcut_roots(c, m);
    assert forall|k: u64| m.dom().contains(k) implies is_root(c, #[trigger] c[k]) by {
        let r = root_of(m, k);
        assert(is_root(m, r));
        if m.dom().contains(r) {
            assert(root_of(m, r) == r) by {
                lemma_follow_stable(m, r, 0, m.dom().len());
            }
        }
    }
    assert(compressed(c) =~= c);
}

/* The ledger's events. */

/// Why an event was not applied.
#[derive(Debug, Clone, Copy, PartialEq, Eq, Hash, Structural)]
pub enum SkipReason {
    MissingOaId,
    MissingOaIdOrOrcid,
    OrcidNotInDataset,
    OaIdNotInDataset,
    DoiNotInSnapshot,
    ClaimantNotAttributed,
}

/// An event that was not applied, by its key, and why.
#[derive(Debug, Clone)]
pub struct SkippedEvent {
    pub key: String,
    pub reason: SkipReason,
}

/// The work an event names: by OpenAlex id, by DOI, or both.
pub struct WorkSubject {
    pub oa_id: Option<u64>,
    pub doi: Option<String>,
}

/// The author an event names.
pub struct AuthorSubject {
    pub oa_id: Option<u64>,
}

/// What an event asks for; `Revoke`, `ModerationDecision` and `AddPaperRequest` are resolved
/// before the ledger is exported and change nothing here.
pub enum EventPayload {
    MergeAuthors { keep: AuthorSubject, drop: AuthorSubject },
    MergePapers { keep: WorkSubject, drop: WorkSubject },
    DisownPaper { work: WorkSubject },
    ClaimPaper { work: WorkSubject },
    Revoke,
    ModerationDecision,
    AddPaperRequest,
}

/// One event of the ledger: its merge-stable key, the ORCID of its user, and what it asks.
pub struct LedgerEventLine {
    pub key: String,
    pub orcid: String,
    pub payload: EventPayload,
}

/// The exported ledger before resolution: events keyed by their subjects, plus the pinned
/// owners.
pub struct UserLedger {
    pub run_id: String,
    pub owner_pin_orcids: TextSet,
    /// (key, orcid, canonical doi)
    pub claims: Vec<(String, String, String)>,
    /// (key, orcid, work oa_id)
    pub disowns: Vec<(String, String, u64)>,
    /// (key, drop oa_id, keep oa_id)
    pub author_merges: Vec<(String, u64, u64)>,
    pub work_merges: Vec<(String, u64, u64)>,
    pub skipped: Vec<SkippedEvent>,
}

/// Keys with their reasons.
pub open spec fn skipped_view(v: Seq<SkippedEvent>) -> Seq<(Seq<char>, SkipReason)> {
    v.map_values(|e: SkippedEvent| (e.key@, e.reason))
}

/// Merges as keys and ids.
pub open spec fn merges_view(v: Seq<(String, u64, u64)>) -> Seq<(Seq<char>, u64, u64)> {
    v.map_values(|e: (String, u64, u64)| (e.0@, e.1, e.2))
}

/// Disowns as keys, ORCIDs and works.
pub open spec fn disowns_view(v: Seq<(String, String, u64)>) -> Seq<(Seq<char>, Seq<char>, u64)> {
    v.map_values(|e: (String, String, u64)| (e.0@, e.1@, e.2))
}

/// Claims as keys, ORCIDs and DOIs.
pub open spec fn claims_view(v: Seq<(String, String, String)>) -> Seq<(Seq<char>, Seq<char>, Seq<char>)> {
    v.map_values(|e: (String, String, String)| (e.0@, e.1@, e.2@))
}

impl UserLedger {
    /// A ledger with no events and no pinned owners.
    pub fn new() -> (res: Self)
        ensures
            res.run_id@ == Seq::<char>::empty(),
            text_items(res.owner_pin_orcids) == Set::<Seq<char>>::empty(),
            res.claims@.len() == 0,
            res.disowns@.len() == 0,
            res.author_merges@.len() == 0,
            res.work_merges@.len() == 0,
            res.skipped@.len() == 0,
    {
        UserLedger {
            run_id: String::new(),
            owner_pin_orcids: TextSet::new(),
            claims: Vec::new(),
            disowns: Vec::new(),
            author_merges: Vec::new(),
            work_merges: Vec::new(),
            skipped: Vec::new(),
        }
    }

    fn skip(&mut self, key: String, reason: SkipReason)
        ensures
            skipped_view(final(self).skipped@) == skipped_view(old(self).skipped@).push((key@, reason)),
            final(self).claims@ == old(self).claims@,
            final(self).disowns@ == old(self).disowns@,
            final(self).author_merges@ == old(self).author_merges@,
            final(self).work_merges@ == old(self).work_merges@,
            final(self).run_id == old(self).run_id,
            final(self).owner_pin_orcids == old(self).owner_pin_orcids,
    {
        let ghost before = self.skipped@;
        let ghost kv = key@;
        self.skipped.push(SkippedEvent { key, reason });
        proof {
            assert(skipped_view(self.skipped@) =~= skipped_view(before).push((kv, reason)));
        }
    }

    /// Files one event: a merge of two distinct ids, a disown of a work by id or a claim of a
    /// work by DOI, each by a user with an ORCID; any of them without what it needs is
    /// skipped, with its reason.
    pub fn apply_event(&mut self, event: LedgerEventLine)
        ensures
            final(self).run_id == old(self).run_id,
            final(self).owner_pin_orcids == old(self).owner_pin_orcids,
            ({
                let o = bare_orcid(event.orcid@);
                let k = event.key@;
                let skips = skipped_view(old(self).skipped@);
                match event.payload {
                    EventPayload::MergeAuthors { keep, drop } => {
                        &&& final(self).claims@ == old(self).claims@
                        &&& final(self).disowns@ == old(self).disowns@
                        &&& final(self).work_merges@ == old(self).work_merges@
                        &&& if keep.oa_id is Some && drop.oa_id is Some && keep.oa_id != drop.oa_id {
                            &&& merges_view(final(self).author_merges@) == merges_view(old(self).author_merges@).push((k, drop.oa_id->0, keep.oa_id->0))
                            &&& skipped_view(final(self).skipped@) == skips
                        } else {
                            &&& final(self).author_merges@ == old(self).author_merges@
                            &&& skipped_view(final(self).skipped@) == skips.push((k, SkipReason::MissingOaId))
                        }
                    },
                    EventPayload::MergePapers { keep, drop } => {
                        &&& final(self).claims@ == old(self).claims@
                        &&& final(self).disowns@ == old(self).disowns@
                        &&& final(self).author_merges@ == old(self).author_merges@
                        &&& if keep.oa_id is Some && drop.oa_id is Some && keep.oa_id != drop.oa_id {
                            &&& merges_view(final(self).work_merges@) == merges_view(old(self).work_merges@).push((k, drop.oa_id->0, keep.oa_id->0))
                            &&& skipped_view(final(self).skipped@) == skips
                        } else {
                            &&& final(self).work_merges@ == old(self).work_merges@
                            &&& skipped_view(final(self).skipped@) == skips.push((k, SkipReason::MissingOaId))
                        }
                    },
                    EventPayload::DisownPaper { work } => {
                        &&& final(self).claims@ == old(self).claims@
                        &&& final(self).author_merges@ == old(self).author_merges@
                        &&& final(self).work_merges@ == old(self).work_merges@
                        &&& if work.oa_id is Some && o.len() > 0 {
                            &&& disowns_view(final(self).disowns@) == disowns_view(old(self).disowns@).push((k, o, work.oa_id->0))
                            &&& skipped_view(final(self).skipped@) == skips
                        } else {
                            &&& final(self).disowns@ == old(self).disowns@
                            &&& skipped_view(final(self).skipped@) == skips.push((k, SkipReason::MissingOaIdOrOrcid))
                        }
                    },
                    EventPayload::ClaimPaper { work } => {
                        &&& final(self).disowns@ == old(self).disowns@
                        &&& final(self).author_merges@ == old(self).author_merges@
                        &&& final(self).work_merges@ == old(self).work_merges@
                        &&& if work.doi is Some && o.len() > 0 {
                            &&& claims_view(final(self).claims@) == claims_view(old(self).claims@).push((k, o, lowercased(bare_doi(work.doi->0@))))
                            &&& skipped_view(final(self).skipped@) == skips
                        } else {
                            &&& final(self).claims@ == old(self).claims@
                            &&& skipped_view(final(self).skipped@) == skips.push((k, SkipReason::MissingOaIdOrOrcid))
                        }
                    },
                    _ => {
                        &&& final(self).claims@ == old(self).claims@
                        &&& final(self).disowns@ == old(self).disowns@
                        &&& final(self).author_merges@ == old(self).author_merges@
                        &&& final(self).work_merges@ == old(self).work_merges@
                        &&& skipped_view(final(self).skipped@) == skips
                    },
                }
            }),
    {
        let LedgerEventLine { key, orcid, payload } = event;
        let orcid = normalize_orcid(orcid.as_str());
        let ghost kv = key@;
        match payload {
            EventPayload::MergeAuthors { keep, drop } => {
                match (keep.oa_id, drop.oa_id) {
                    (Some(k), Some(d)) => {
                        if k != d {
                            let ghost before = self.author_merges@;
                            self.author_merges.push((key, d, k));
                            proof {
                                assert(merges_view(self.author_merges@) =~= merges_view(before).push((kv, d, k)));
                            }
                        } else {
                            self.skip(key, SkipReason::MissingOaId);
                        }
                    },
                    _ => self.skip(key, SkipReason::MissingOaId),
                }
            },
            EventPayload::MergePapers { keep, drop } => {
                match (keep.oa_id, drop.oa_id) {
                    (Some(k), Some(d)) => {
                        if k != d {
                            let ghost before = self.work_merges@;
                            self.work_merges.push((key, d, k));
                            proof {
                                assert(merges_view(self.work_merges@) =~= merges_view(before).push((kv, d, k)));
                            }
                        } else {
                            self.skip(key, SkipReason::MissingOaId);
                        }
                    },
                    _ => self.skip(key, SkipReason::MissingOaId),
                }
            },
            EventPayload::DisownPaper { work } => {
                match work.oa_id {
                    Some(w) => {
                        if orcid.as_str().unicode_len() > 0 {
                            let ghost before = self.disowns@;
                            let ghost ov = orcid@;
                            self.disowns.push((key, orcid, w));
                            proof {
                                assert(disowns_view(self.disowns@) =~= disowns_view(before).push((kv, ov, w)));
                            }
                        } else {
                            self.skip(key, SkipReason::MissingOaIdOrOrcid);
                        }
                    },
                    None => self.skip(key, SkipReason::MissingOaIdOrOrcid),
                }
            },
            EventPayload::ClaimPaper { work } => {
                match work.doi {
                    Some(doi) => {
                        if orcid.as_str().unicode_len() > 0 {
                            let ghost before = self.claims@;
                            let ghost ov = orcid@;
                            let c = canonical_doi(doi.as_str());
                            let ghost cv = c@;
                            self.claims.push((key, orcid, c));
                            proof {
                                assert(claims_view(self.claims@) =~= claims_view(before).push((kv, ov, cv)));
                            }
                        } else {
                            self.skip(key, SkipReason::MissingOaIdOrOrcid);
                        }
                    },
                    None => self.skip(key, SkipReason::MissingOaIdOrOrcid),
                }
            },
            _ => {},
        }
    }
}

/* Resolution against the snapshot. */

/// What the raw snapshot holds of the ids the events name.
pub struct SnapshotIds {
    pub orcid_to_oa: TextIdMap,
    pub authors: IdSet,
    pub works: IdSet,
    pub doi_to_work: TextIdMap,
}

/// The tables every later read applies: merged ids read as their keep id, and disowned
/// authorships do not exist.
pub struct ResolvedLedger {
    pub run_id: String,
    /// drop oa_id -> keep oa_id, path-compressed
    pub author_aliases: AliasMap,
    pub work_aliases: AliasMap,
    /// (author oa_id, work oa_id) in keep-id space
    pub removed_edges: EdgeSet,
}

/// A claim applies iff the claimant is credited on the work once the ledger is applied.
pub struct PendingClaim {
    pub key: String,
    pub claimant: u64,
    pub work: u64,
}

/// What the filter step still needs after resolution: the pinned owners, the claims awaiting
/// their credit check, and the decided keys.
pub struct Outcomes {
    pub run_id: String,
    /// Owner oa_ids in keep-id space
    pub pins: IdSet,
    pub claims: Vec<PendingClaim>,
    pub applied: Vec<String>,
    pub skipped: Vec<SkippedEvent>,
}

/// Texts as characters.
pub open spec fn strings_view(v: Seq<String>) -> Seq<Seq<char>> {
    v.map_values(|t: String| t@)
}

/// Pending claims as keys and ids.
pub open spec fn pending_view(v: Seq<PendingClaim>) -> Seq<(Seq<char>, u64, u64)> {
    v.map_values(|c: PendingClaim| (c.key@, c.claimant, c.work))
}

/// The aliases merges make: a merge whose keep id the snapshot holds maps its drop id to it,
/// a later merge of the same drop id winning.
pub open spec fn merged(ms: Seq<(Seq<char>, u64, u64)>, snap: Set<u64>) -> Map<u64, u64>
    decreases ms.len(),
{
    if ms.len() == 0 {
        Map::empty()
    } else {
        let m = merged(ms.drop_last(), snap);
        let e = ms.last();
        if snap.contains(e.2) {
            m.insert(e.1, e.2)
        } else {
            m
        }
    }
}

/// The keys of the merges that apply, in order.
pub open spec fn merge_keys(ms: Seq<(Seq<char>, u64, u64)>, snap: Set<u64>) -> Seq<Seq<char>>
    decreases ms.len(),
{
    if ms.len() == 0 {
        Seq::empty()
    } else {
        let e = ms.last();
        if snap.contains(e.2) {
            merge_keys(ms.drop_last(), snap).push(e.0)
        } else {
            merge_keys(ms.drop_last(), snap)
        }
    }
}

/// The merges that do not apply, in order: their keep id is not in the snapshot.
pub open spec fn merge_skips(ms: Seq<(Seq<char>, u64, u64)>, snap: Set<u64>) -> Seq<(Seq<char>, SkipReason)>
    decreases ms.len(),
{
    if ms.len() == 0 {
        Seq::empty()
    } else {
        let e = ms.last();
        if snap.contains(e.2) {
            merge_skips(ms.drop_last(), snap)
        } else {
            merge_skips(ms.drop_last(), snap).push((e.0, SkipReason::OaIdNotInDataset))
        }
    }
}

/// Why a disown does not apply, where it does not: its owner or its work is not in the
/// snapshot.
pub open spec fn disown_fate(d: (Seq<char>, Seq<char>, u64), o2a: Map<Seq<char>, u64>, works: Set<u64>) -> Option<SkipReason> {
    if !o2a.dom().contains(d.1) {
        Some(SkipReason::OrcidNotInDataset)
    } else if !works.contains(d.2) {
        Some(SkipReason::OaIdNotInDataset)
    } else {
        None
    }
}

/// The edges the disowns that apply remove, in keep-id space.
pub open spec fn disown_edges(ds: Seq<(Seq<char>, Seq<char>, u64)>, o2a: Map<Seq<char>, u64>, works: Set<u64>, am: Map<u64, u64>, wm: Map<u64, u64>) -> Set<(u64, u64)>
    decreases ds.len(),
{
    if ds.len() == 0 {
        Set::empty()
    } else {
        let d = ds.last();
        let s = disown_edges(ds.drop_last(), o2a, works, am, wm);
        if disown_fate(d, o2a, works) is None {
            s.insert((root_of(am, o2a[d.1]), root_of(wm, d.2)))
        } else {
            s
        }
    }
}

/// The keys of the disowns that apply, in order.
pub open spec fn disown_keys(ds: Seq<(Seq<char>, Seq<char>, u64)>, o2a: Map<Seq<char>, u64>, works: Set<u64>) -> Seq<Seq<char>>
    decreases ds.len(),
{
    if ds.len() == 0 {
        Seq::empty()
    } else {
        let d = ds.last();
        if disown_fate(d, o2a, works) is None {
            disown_keys(ds.drop_last(), o2a, works).push(d.0)
        } else {
            disown_keys(ds.drop_last(), o2a, works)
        }
    }
}

/// The disowns that do not apply, with why, in order.
pub open spec fn disown_skips(ds: Seq<(Seq<char>, Seq<char>, u64)>, o2a: Map<Seq<char>, u64>, works: Set<u64>) -> Seq<(Seq<char>, SkipReason)>
    decreases ds.len(),
{
    if ds.len() == 0 {
        Seq::empty()
    } else {
        let d = ds.last();
        match disown_fate(d, o2a, works) {
            Some(r) => disown_skips(ds.drop_last(), o2a, works).push((d.0, r)),
            None => disown_skips(ds.drop_last(), o2a, works),
        }
    }
}

/// Why a claim cannot wait for its credit check, where it cannot: its DOI or its claimant is
/// not in the snapshot.
pub open spec fn claim_fate(c: (Seq<char>, Seq<char>, Seq<char>), o2a: Map<Seq<char>, u64>, d2w: Map<Seq<char>, u64>) -> Option<SkipReason> {
    if !d2w.dom().contains(c.2) {
        Some(SkipReason::DoiNotInSnapshot)
    } else if !o2a.dom().contains(c.1) {
        Some(SkipReason::OrcidNotInDataset)
    } else {
        None
    }
}

/// The claims that wait for their credit check, claimant and work in keep-id space.
pub open spec fn pending(cs: Seq<(Seq<char>, Seq<char>, Seq<char>)>, o2a: Map<Seq<char>, u64>, d2w: Map<Seq<char>, u64>, am: Map<u64, u64>, wm: Map<u64, u64>) -> Seq<(Seq<char>, u64, u64)>
    decreases cs.len(),
{
    if cs.len() == 0 {
        Seq::empty()
    } else {
        let c = cs.last();
        let p = pending(cs.drop_last(), o2a, d2w, am, wm);
        if claim_fate(c, o2a, d2w) is None {
            p.push((c.0, root_of(am, o2a[c.1]), root_of(wm, d2w[c.2])))
        } else {
            p
        }
    }
}

/// The claims that cannot wait, with why, in order.
pub open spec fn claim_skips(cs: Seq<(Seq<char>, Seq<char>, Seq<char>)>, o2a: Map<Seq<char>, u64>, d2w: Map<Seq<char>, u64>) -> Seq<(Seq<char>, SkipReason)>
    decreases cs.len(),
{
    if cs.len() == 0 {
        Seq::empty()
    } else {
        let c = cs.last();
        match claim_fate(c, o2a, d2w) {
            Some(r) => claim_skips(cs.drop_last(), o2a, d2w).push((c.0, r)),
            None => claim_skips(cs.drop_last(), o2a, d2w),
        }
    }
}

/// The pinned owners the snapshot knows, in keep-id space.
pub open spec fn pinned(pins: Set<Seq<char>>, o2a: Map<Seq<char>, u64>, am: Map<u64, u64>) -> Set<u64> {
    Set::new(|a: u64| exists|o: Seq<char>| #[trigger] pins.contains(o) && o2a.dom().contains(o) && a == root_of(am, o2a[o]))
}

/// The root of an id in a map that holds every key's root.
fn root_in(m: &AliasMap, a: u64, Ghost(m0): Ghost<Map<u64, u64>>) -> (res: u64)
    requires
        alias_pairs(*m) == compressed(m0),
    ensures
        res == root_of(m0, a),
{
    match m.get(a) {
        Some(r) => r,
        None => a,
    }
}

/// The aliases of the merges whose keep id the snapshot holds; the keys of those that apply
/// and the skips of those that do not are added on.
fn apply_merges(ms: &Vec<(String, u64, u64)>, snap: &IdSet, applied: &mut Vec<String>, skipped: &mut Vec<SkippedEvent>) -> (res: AliasMap)
    ensures
        alias_pairs(res) == merged(merges_view(ms@), id_items(*snap)),
        strings_view(final(applied)@) == strings_view(old(applied)@) + merge_keys(merges_view(ms@), id_items(*snap)),
        skipped_view(final(skipped)@) == skipped_view(old(skipped)@) + merge_skips(merges_view(ms@), id_items(*snap)),
{
    let ghost mv = merges_view(ms@);
    let ghost snapv = id_items(*snap);
    let ghost a0 = strings_view(applied@);
    let ghost s0 = skipped_view(skipped@);
    let mut m = AliasMap::new();
    let mut i: usize = 0;
    proof {
        assert(mv.subrange(0, 0) =~= Seq::<(Seq<char>, u64, u64)>::empty());
        assert(a0 + Seq::<Seq<char>>::empty() =~= a0);
        assert(s0 + Seq::<(Seq<char>, SkipReason)>::empty() =~= s0);
    }
    while i < ms.len()
        invariant
            i <= ms@.len(),
            mv == merges_view(ms@),
            snapv == id_items(*snap),
            alias_pairs(m) == merged(mv.subrange(0, i as int), snapv),
            strings_view(applied@) == a0 + merge_keys(mv.subrange(0, i as int), snapv),
            skipped_view(skipped@) == s0 + merge_skips(mv.subrange(0, i as int), snapv),
        decreases ms@.len() - i,
    {
        let (key, drop, keep) = (&ms[i].0, ms[i].1, ms[i].2);
        let ghost before_a = applied@;
        let ghost before_s = skipped@;
        proof {
            let p = mv.subrange(0, i + 1);
            assert(p.drop_last() =~= mv.subrange(0, i as int));
            assert(p.last() == (key@, drop, keep));
        }
        if snap.contains(keep) {
            m.insert(drop, keep);
            applied.push(key.clone());
            proof {
                assert(strings_view(applied@) =~= strings_view(before_a).push(key@));
            }
        } else {
            skipped.push(SkippedEvent { key: key.clone(), reason: SkipReason::OaIdNotInDataset });
            proof {
                assert(skipped_view(skipped@) =~= skipped_view(before_s).push((key@, SkipReason::OaIdNotInDataset)));
            }
        }
        i += 1;
    }
    proof {
        assert(mv.subrange(0, ms@.len() as int) =~= mv);
    }
    m
}

impl UserLedger {
    /// Decides every event against the snapshot. A merge applies iff its keep id is in the
    /// snapshot: rewriting an absent drop id is a no-op, while a merge into an absent keep
    /// would erase the drop side. A disown applies iff its owner and work resolve; a claim is
    /// settled later, once the reader shows who is credited on the work. Everything comes out
    /// in keep-id space.
    pub fn resolve(self, ids: &SnapshotIds) -> (res: (ResolvedLedger, Outcomes))
        requires
            settles(merged(merges_view(self.author_merges@), id_items(ids.authors))),
            settles(merged(merges_view(self.work_merges@), id_items(ids.works))),
        ensures
            ({
                let am = merged(merges_view(self.author_merges@), id_items(ids.authors));
                let wm = merged(merges_view(self.work_merges@), id_items(ids.works));
                let o2a = text_id_pairs(ids.orcid_to_oa);
                let d2w = text_id_pairs(ids.doi_to_work);
                let works = id_items(ids.works);
                let ds = disowns_view(self.disowns@);
                let cs = claims_view(self.claims@);
                &&& res.0.run_id@ == self.run_id@
                &&& res.1.run_id@ == self.run_id@
                &&& alias_pairs(res.0.author_aliases) == compressed(am)
                &&& alias_pairs(res.0.work_aliases) == compressed(wm)
                &&& edge_items(res.0.removed_edges) == disown_edges(ds, o2a, works, am, wm)
                &&& id_items(res.1.pins) == pinned(text_items(self.owner_pin_orcids), o2a, am)
                &&& pending_view(res.1.claims@) == pending(cs, o2a, d2w, am, wm)
                &&& strings_view(res.1.applied@) == merge_keys(merges_view(self.author_merges@), id_items(ids.authors))
                    + merge_keys(merges_view(self.work_merges@), works) + disown_keys(ds, o2a, works)
                &&& skipped_view(res.1.skipped@) == skipped_view(self.skipped@)
                    + merge_skips(merges_view(self.author_merges@), id_items(ids.authors))
                    + merge_skips(merges_view(self.work_merges@), works) + disown_skips(ds, o2a, works)
                    + claim_skips(cs, o2a, d2w)
            }),
    {
        let ghost am = merged(merges_view(self.author_merges@), id_items(ids.authors));
        let ghost wm = merged(merges_view(self.work_merges@), id_items(ids.works));
        let ghost o2a = text_id_pairs(ids.orcid_to_oa);
        let ghost d2w = text_id_pairs(ids.doi_to_work);
        let ghost works = id_items(ids.works);
        let ghost ds = disowns_view(self.disowns@);
        let ghost cs = claims_view(self.claims@);
        let mut applied: Vec<String> = Vec::new();
        let mut skipped = self.skipped;
        proof {
            assert(strings_view(applied@) =~= Seq::<Seq<char>>::empty());
        }
        let mut author_aliases = apply_merges(&self.author_merges, &ids.authors, &mut applied, &mut skipped);
        path_compress(&mut author_aliases);
        let mut work_aliases = apply_merges(&self.work_merges, &ids.works, &mut applied, &mut skipped);
        path_compress(&mut work_aliases);
        let ghost applied_merges = strings_view(applied@);
        let ghost skipped_merges = skipped_view(skipped@);

        let mut removed_edges = EdgeSet::new();
        let mut i: usize = 0;
        proof {
            assert(ds.subrange(0, 0) =~= Seq::<(Seq<char>, Seq<char>, u64)>::empty());
            assert(applied_merges + Seq::<Seq<char>>::empty() =~= applied_merges);
            assert(skipped_merges + Seq::<(Seq<char>, SkipReason)>::empty() =~= skipped_merges);
            assert(edge_items(removed_edges) =~= disown_edges(ds.subrange(0, 0), o2a, works, am, wm));
        }
        while i < self.disowns.len()
            invariant
                i <= self.disowns@.len(),
                ds == disowns_view(self.disowns@),
                o2a == text_id_pairs(ids.orcid_to_oa),
                works == id_items(ids.works),
                settles(am),
                settles(wm),
                alias_pairs(author_aliases) == compressed(am),
                alias_pairs(work_aliases) == compressed(wm),
                edge_items(removed_edges) == disown_edges(ds.subrange(0, i as int), o2a, works, am, wm),
                strings_view(applied@) == applied_merges + disown_keys(ds.subrange(0, i as int), o2a, works),
                skipped_view(skipped@) == skipped_merges + disown_skips(ds.subrange(0, i as int), o2a, works),
            decreases self.disowns@.len() - i,
        {
            let key = &self.disowns[i].0;
            let orcid = &self.disowns[i].1;
            let work = self.disowns[i].2;
            let ghost before_a = applied@;
            let ghost before_s = skipped@;
            proof {
                let p = ds.subrange(0, i + 1);
                assert(p.drop_last() =~= ds.subrange(0, i as int));
                assert(p.last() == (key@, orcid@, work));
            }
            match ids.orcid_to_oa.get(orcid) {
                None => {
                    skipped.push(SkippedEvent { key: key.clone(), reason: SkipReason::OrcidNotInDataset });
                    proof {
                        assert(skipped_view(skipped@) =~= skipped_view(before_s).push((key@, SkipReason::OrcidNotInDataset)));
                    }
                },
                Some(owner) => {
                    if !ids.works.contains(work) {
                        skipped.push(SkippedEvent { key: key.clone(), reason: SkipReason::OaIdNotInDataset });
                        proof {
                            assert(skipped_view(skipped@) =~= skipped_view(before_s).push((key@, SkipReason::OaIdNotInDataset)));
                        }
                    } else {
                        let a = root_in(&author_aliases, owner, Ghost(am));
                        let w = root_in(&work_aliases, work, Ghost(wm));
                        removed_edges.insert((a, w));
                        applied.push(key.clone());
                        proof {
                            assert(strings_view(applied@) =~= strings_view(before_a).push(key@));
                        }
                    }
                },
            }
            i += 1;
        }
        proof {
            assert(ds.subrange(0, self.disowns@.len() as int) =~= ds);
        }
        let ghost skipped_disowns = skipped_view(skipped@);

        let mut claims: Vec<PendingClaim> = Vec::new();
        let mut j: usize = 0;
        proof {
            assert(cs.subrange(0, 0) =~= Seq::<(Seq<char>, Seq<char>, Seq<char>)>::empty());
            assert(skipped_disowns + Seq::<(Seq<char>, SkipReason)>::empty() =~= skipped_disowns);
            assert(pending_view(claims@) =~= Seq::<(Seq<char>, u64, u64)>::empty());
        }
        while j < self.claims.len()
            invariant
                j <= self.claims@.len(),
                cs == claims_view(self.claims@),
                o2a == text_id_pairs(ids.orcid_to_oa),
                d2w == text_id_pairs(ids.doi_to_work),
                settles(am),
                settles(wm),
                alias_pairs(author_aliases) == compressed(am),
                alias_pairs(work_aliases) == compressed(wm),
                pending_view(claims@) == pending(cs.subrange(0, j as int), o2a, d2w, am, wm),
                skipped_view(skipped@) == skipped_disowns + claim_skips(cs.subrange(0, j as int), o2a, d2w),
            decreases self.claims@.len() - j,
        {
            let key = &self.claims[j].0;
            let orcid = &self.claims[j].1;
            let doi = &self.claims[j].2;
            let ghost before_c = claims@;
            let ghost before_s = skipped@;
            proof {
                let p = cs.subrange(0, j + 1);
                assert(p.drop_last() =~= cs.subrange(0, j as int));
                assert(p.last() == (key@, orcid@, doi@));
            }
            match ids.doi_to_work.get(doi) {
                None => {
                    skipped.push(SkippedEvent { key: key.clone(), reason: SkipReason::DoiNotInSnapshot });
                    proof {
                        assert(skipped_view(skipped@) =~= skipped_view(before_s).push((key@, SkipReason::DoiNotInSnapshot)));
                    }
                },
                Some(work) => {
                    match ids.orcid_to_oa.get(orcid) {
                        None => {
                            skipped.push(SkippedEvent { key: key.clone(), reason: SkipReason::OrcidNotInDataset });
                            proof {
                                assert(skipped_view(skipped@) =~= skipped_view(before_s).push((key@, SkipReason::OrcidNotInDataset)));
                            }
                        },
                        Some(claimant) => {
                            let c = root_in(&author_aliases, claimant, Ghost(am));
                            let w = root_in(&work_aliases, work, Ghost(wm));
                            claims.push(PendingClaim { key: key.clone(), claimant: c, work: w });
                            proof {
                                assert(pending_view(claims@) =~= pending_view(before_c).push((key@, c, w)));
                            }
                        },
                    }
                },
            }
            j += 1;
        }
        proof {
            assert(cs.subrange(0, self.claims@.len() as int) =~= cs);
        }

        let orcids = self.owner_pin_orcids.items();
        let ghost ov = strings_view(orcids@);
        let mut pins = IdSet::new();
        let mut k: usize = 0;
        while k < orcids.len()
            invariant
                k <= orcids@.len(),
                ov == strings_view(orcids@),
                o2a == text_id_pairs(ids.orcid_to_oa),
                settles(am),
                alias_pairs(author_aliases) == compressed(am),
                forall|a: u64| #[trigger] id_items(pins).contains(a) <==> exists|q: int| 0 <= q < k && o2a.dom().contains(ov[q]) && a == root_of(am, o2a[ov[q]]),
            decreases orcids@.len() - k,
        {
            let ghost before = id_items(pins);
            match ids.orcid_to_oa.get(&orcids[k]) {
                Some(a) => {
                    let r = root_in(&author_aliases, a, Ghost(am));
                    pins.insert(r);
                    proof {
                        assert forall|x: u64| #[trigger] id_items(pins).contains(x) <==> exists|q: int| 0 <= q < k + 1 && o2a.dom().contains(ov[q]) && x == root_of(am, o2a[ov[q]]) by {
                            if x == r {
                                assert(ov[k as int] == orcids@[k as int]@);
                            }
                            if exists|q: int| 0 <= q < k + 1 && o2a.dom().contains(ov[q]) && x == root_of(am, o2a[ov[q]]) {
                                let q = choose|q: int| 0 <= q < k + 1 && o2a.dom().contains(ov[q]) && x == root_of(am, o2a[ov[q]]);
                                if q == k {
                                    assert(ov[k as int] == orcids@[k as int]@);
                                }
                            }
                        }
                    }
                },
                None => {
                    proof {
                        assert forall|x: u64| #[trigger] id_items(pins).contains(x) <==> exists|q: int| 0 <= q < k + 1 && o2a.dom().contains(ov[q]) && x == root_of(am, o2a[ov[q]]) by {
                            if exists|q: int| 0 <= q < k + 1 && o2a.dom().contains(ov[q]) && x == root_of(am, o2a[ov[q]]) {
                                let q = choose|q: int| 0 <= q < k + 1 && o2a.dom().contains(ov[q]) && x == root_of(am, o2a[ov[q]]);
                                if q == k {
                                    assert(ov[k as int] == orcids@[k as int]@);
                                    assert(!o2a.dom().contains(ov[q]));
                                }
                            }
                        }
                    }
                },
            }
            k += 1;
        }
        proof {
            let pv = text_items(self.owner_pin_orcids);
            assert(ov.to_set() == pv);
            assert forall|a: u64| id_items(pins).contains(a) <==> #[trigger] pinned(pv, o2a, am).contains(a) by {
                if id_items(pins).contains(a) {
                    let q = choose|q: int| 0 <= q < orcids@.len() && o2a.dom().contains(ov[q]) && a == root_of(am, o2a[ov[q]]);
                    assert(ov.to_set().contains(ov[q]));
                    assert(pv.contains(ov[q]));
                }
                if pinned(pv, o2a, am).contains(a) {
                    let o = choose|o: Seq<char>| #[trigger] pv.contains(o) && o2a.dom().contains(o) && a == root_of(am, o2a[o]);
                    assert(ov.to_set().contains(o));
                    let q = choose|q: int| 0 <= q < ov.len() && ov[q] == o;
                }
            }
            assert(id_items(pins) =~= pinned(pv, o2a, am));
        }

        let resolved = ResolvedLedger {
            run_id: self.run_id.clone(),
            author_aliases,
            work_aliases,
            removed_edges,
        };
        let outcomes = Outcomes { run_id: self.run_id, pins, claims, applied, skipped };
        (resolved, outcomes)
    }
}

/// The ids the events name, so the snapshot passes stay membership tests.
pub struct Referenced {
    pub orcids: TextSet,
    pub authors: IdSet,
    pub works: IdSet,
    pub dois: TextSet,
}

/// The second texts of triples, as a set.
pub open spec fn seconds<B>(v: Seq<(Seq<char>, Seq<char>, B)>) -> Set<Seq<char>> {
    v.map_values(|e: (Seq<char>, Seq<char>, B)| e.1).to_set()
}

/// The keep ids of merges, as a set.
pub open spec fn keeps(v: Seq<(Seq<char>, u64, u64)>) -> Set<u64> {
    v.map_values(|e: (Seq<char>, u64, u64)| e.2).to_set()
}

/// The works of disowns, as a set.
pub open spec fn disowned_works(v: Seq<(Seq<char>, Seq<char>, u64)>) -> Set<u64> {
    v.map_values(|e: (Seq<char>, Seq<char>, u64)| e.2).to_set()
}

/// The DOIs of claims, as a set.
pub open spec fn claimed_dois(v: Seq<(Seq<char>, Seq<char>, Seq<char>)>) -> Set<Seq<char>> {
    v.map_values(|e: (Seq<char>, Seq<char>, Seq<char>)| e.2).to_set()
}

pub proof fn lemma_to_set_push<A>(s: Seq<A>, a: A)
    ensures
        s.push(a).to_set() == s.to_set().insert(a),
{
    assert forall|x: A| s.push(a).to_set().contains(x) <==> #[trigger] s.to_set().insert(a).contains(x) by {
        if s.push(a).to_set().contains(x) {
            let i = choose|i: int| 0 <= i < s.push(a).len() && s.push(a)[i] == x;
            if i < s.len() {
                assert(s[i] == x);
            }
        }
        if s.to_set().contains(x) && x != a {
            let i = choose|i: int| 0 <= i < s.len() && s[i] == x;
            assert(s.push(a)[i] == x);
        }
        if x == a {
            assert(s.push(a)[s.len() as int] == a);
        }
    }
    assert(s.push(a).to_set() =~= s.to_set().insert(a));
}

impl UserLedger {
    /// The ORCIDs, authors, works and DOIs the events and pins name.
    pub fn referenced(&self) -> (res: Referenced)
        ensures
            text_items(res.orcids) == text_items(self.owner_pin_orcids) + seconds(claims_view(self.claims@)) + seconds(disowns_view(self.disowns@)),
            id_items(res.authors) == keeps(merges_view(self.author_merges@)),
            id_items(res.works) == keeps(merges_view(self.work_merges@)) + disowned_works(disowns_view(self.disowns@)),
            text_items(res.dois) == claimed_dois(claims_view(self.claims@)),
    {
        let ghost cv = claims_view(self.claims@);
        let ghost dv = disowns_view(self.disowns@);
        let mut orcids = TextSet::new();
        let pins = self.owner_pin_orcids.items();
        let ghost pv = pins@.map_values(|t: String| t@);
        let mut i: usize = 0;
        proof {
            assert(pv.subrange(0, 0).to_set() =~= Set::<Seq<char>>::empty());
        }
        while i < pins.len()
            invariant
                i <= pins@.len(),
                pv == pins@.map_values(|t: String| t@),
                text_items(orcids) == pv.subrange(0, i as int).to_set(),
            decreases pins@.len() - i,
        {
            orcids.insert(pins[i].clone());
            proof {
                assert(pv.subrange(0, i + 1) =~= pv.subrange(0, i as int).push(pv[i as int]));
                lemma_to_set_push(pv.subrange(0, i as int), pv[i as int]);
            }
            i += 1;
        }
        proof {
            assert(pv.subrange(0, pins@.len() as int) =~= pv);
        }
        let ghost base = text_items(orcids);
        let ghost c1 = cv.map_values(|e: (Seq<char>, Seq<char>, Seq<char>)| e.1);
        let mut dois = TextSet::new();
        let mut j: usize = 0;
        proof {
            assert(c1.subrange(0, 0).to_set() =~= Set::<Seq<char>>::empty());
            assert(base + c1.subrange(0, 0).to_set() =~= base);
        }
        let ghost c2 = cv.map_values(|e: (Seq<char>, Seq<char>, Seq<char>)| e.2);
        proof {
            assert(c2.subrange(0, 0).to_set() =~= Set::<Seq<char>>::empty());
        }
        while j < self.claims.len()
            invariant
                j <= self.claims@.len(),
                cv == claims_view(self.claims@),
                c1 == cv.map_values(|e: (Seq<char>, Seq<char>, Seq<char>)| e.1),
                c2 == cv.map_values(|e: (Seq<char>, Seq<char>, Seq<char>)| e.2),
                text_items(orcids) == base + c1.subrange(0, j as int).to_set(),
                text_items(dois) == c2.subrange(0, j as int).to_set(),
            decreases self.claims@.len() - j,
        {
            orcids.insert(self.claims[j].1.clone());
            dois.insert(self.claims[j].2.clone());
            proof {
                assert(c1.subrange(0, j + 1) =~= c1.subrange(0, j as int).push(c1[j as int]));
                lemma_to_set_push(c1.subrange(0, j as int), c1[j as int]);
                assert(c2.subrange(0, j + 1) =~= c2.subrange(0, j as int).push(c2[j as int]));
                lemma_to_set_push(c2.subrange(0, j as int), c2[j as int]);
                assert(base + c1.subrange(0, j + 1).to_set() =~= (base + c1.subrange(0, j as int).to_set()).insert(c1[j as int]));
            }
            j += 1;
        }
        proof {
            assert(c1.subrange(0, self.claims@.len() as int) =~= c1);
            assert(c2.subrange(0, self.claims@.len() as int) =~= c2);
        }
        let ghost base2 = text_items(orcids);
        let ghost d1 = dv.map_values(|e: (Seq<char>, Seq<char>, u64)| e.1);
        let ghost d2 = dv.map_values(|e: (Seq<char>, Seq<char>, u64)| e.2);
        let mut works = IdSet::new();
        let mut k: usize = 0;
        proof {
            assert(d1.subrange(0, 0).to_set() =~= Set::<Seq<char>>::empty());
            assert(base2 + d1.subrange(0, 0).to_set() =~= base2);
            assert(d2.subrange(0, 0).to_set() =~= Set::<u64>::empty());
        }
        while k < self.disowns.len()
            invariant
                k <= self.disowns@.len(),
                dv == disowns_view(self.disowns@),
                d1 == dv.map_values(|e: (Seq<char>, Seq<char>, u64)| e.1),
                d2 == dv.map_values(|e: (Seq<char>, Seq<char>, u64)| e.2),
                text_items(orcids) == base2 + d1.subrange(0, k as int).to_set(),
                id_items(works) == d2.subrange(0, k as int).to_set(),
            decreases self.disowns@.len() - k,
        {
            orcids.insert(self.disowns[k].1.clone());
            works.insert(self.disowns[k].2);
            proof {
                assert(d1.subrange(0, k + 1) =~= d1.subrange(0, k as int).push(d1[k as int]));
                lemma_to_set_push(d1.subrange(0, k as int), d1[k as int]);
                assert(d2.subrange(0, k + 1) =~= d2.subrange(0, k as int).push(d2[k as int]));
                lemma_to_set_push(d2.subrange(0, k as int), d2[k as int]);
                assert(base2 + d1.subrange(0, k + 1).to_set() =~= (base2 + d1.subrange(0, k as int).to_set()).insert(d1[k as int]));
            }
            k += 1;
        }
        proof {
            assert(d1.subrange(0, self.disowns@.len() as int) =~= d1);
            assert(d2.subrange(0, self.disowns@.len() as int) =~= d2);
        }
        let ghost disowned = id_items(works);
        let authors = keep_ids(&self.author_merges);
        let work_keeps = keep_ids(&self.work_merges);
        let items = work_keeps.items();
        let mut q: usize = 0;
        proof {
            assert(items@.subrange(0, 0).to_set() =~= Set::<u64>::empty());
            assert(disowned + Set::<u64>::empty() =~= disowned);
        }
        while q < items.len()
            invariant
                q <= items@.len(),
                id_items(works) == disowned + items@.subrange(0, q as int).to_set(),
            decreases items@.len() - q,
        {
            works.insert(items[q]);
            proof {
                assert(items@.subrange(0, q + 1) =~= items@.subrange(0, q as int).push(items@[q as int]));
                lemma_to_set_push(items@.subrange(0, q as int), items@[q as int]);
                assert(disowned + items@.subrange(0, q + 1).to_set() =~= (disowned + items@.subrange(0, q as int).to_set()).insert(items@[q as int]));
            }
            q += 1;
        }
        proof {
            assert(items@.subrange(0, items@.len() as int) =~= items@);
            assert(id_items(works) =~= keeps(merges_view(self.work_merges@)) + disowned_works(dv));
        }
        Referenced { orcids, authors, works, dois }
    }
}

/// The keep ids of merges.
fn keep_ids(ms: &Vec<(String, u64, u64)>) -> (res: IdSet)
    ensures
        id_items(res) == keeps(merges_view(ms@)),
{
    let ghost kv = merges_view(ms@).map_values(|e: (Seq<char>, u64, u64)| e.2);
    let mut out = IdSet::new();
    let mut i: usize = 0;
    proof {
        assert(kv.subrange(0, 0).to_set() =~= Set::<u64>::empty());
    }
    while i < ms.len()
        invariant
            i <= ms@.len(),
            kv == merges_view(ms@).map_values(|e: (Seq<char>, u64, u64)| e.2),
            id_items(out) == kv.subrange(0, i as int).to_set(),
        decreases ms@.len() - i,
    {
        out.insert(ms[i].2);
        proof {
            assert(kv.subrange(0, i + 1) =~= kv.subrange(0, i as int).push(kv[i as int]));
            lemma_to_set_push(kv.subrange(0, i as int), kv[i as int]);
        }
        i += 1;
    }
    proof {
        assert(kv.subrange(0, ms@.len() as int) =~= kv);
    }
    out
}

impl ResolvedLedger {
    /// Whether the ledger changes nothing: no aliases and no removed edges.
    pub fn is_empty(&self) -> (res: bool)
        ensures
            res == (alias_pairs(self.author_aliases).dom().len() == 0
                && alias_pairs(self.work_aliases).dom().len() == 0
                && edge_items(self.removed_edges).len() == 0),
    {
        let a = self.author_aliases.keys();
        let w = self.work_aliases.keys();
        let e = self.removed_edges.items();
        proof {
            a@.unique_seq_to_set();
            w@.unique_seq_to_set();
            e@.unique_seq_to_set();
        }
        a.len() == 0 && w.len() == 0 && e.len() == 0
    }
}

impl SnapshotIds {
    /// No ids.
    pub fn new() -> (res: Self)
        ensures
            text_id_pairs(res.orcid_to_oa) == crate::id_collections::no_text_ids(),
            id_items(res.authors) == Set::<u64>::empty(),
            id_items(res.works) == Set::<u64>::empty(),
            text_id_pairs(res.doi_to_work) == crate::id_collections::no_text_ids(),
    {
        SnapshotIds {
            orcid_to_oa: TextIdMap::new(),
            authors: IdSet::new(),
            works: IdSet::new(),
            doi_to_work: TextIdMap::new(),
        }
    }
}

impl Default for UserLedger {
    fn default() -> (res: Self)
        ensures
            res.run_id@ == Seq::<char>::empty(),
            text_items(res.owner_pin_orcids) == Set::<Seq<char>>::empty(),
            res.claims@.len() == 0,
            res.disowns@.len() == 0,
            res.author_merges@.len() == 0,
            res.work_merges@.len() == 0,
            res.skipped@.len() == 0,
    {
        UserLedger::new()
    }
}

/* The manifest of what was applied. */

/// The keys of the claims whose claimant is credited on the work, in order.
pub open spec fn credited_keys(cs: Seq<(Seq<char>, u64, u64)>, credited: Set<(u64, u64)>) -> Seq<Seq<char>>
    decreases cs.len(),
{
    if cs.len() == 0 {
        Seq::empty()
    } else {
        let c = cs.last();
        if credited.contains((c.1, c.2)) {
            credited_keys(cs.drop_last(), credited).push(c.0)
        } else {
            credited_keys(cs.drop_last(), credited)
        }
    }
}

/// The claims whose claimant is not credited on the work, in order.
pub open spec fn uncredited(cs: Seq<(Seq<char>, u64, u64)>, credited: Set<(u64, u64)>) -> Seq<(Seq<char>, SkipReason)>
    decreases cs.len(),
{
    if cs.len() == 0 {
        Seq::empty()
    } else {
        let c = cs.last();
        if credited.contains((c.1, c.2)) {
            uncredited(cs.drop_last(), credited)
        } else {
            uncredited(cs.drop_last(), credited).push((c.0, SkipReason::ClaimantNotAttributed))
        }
    }
}

/// `out` holds the items of `all`, each once, rearranged.
pub open spec fn rearranged<A>(out: Seq<A>, all: Seq<A>) -> bool {
    exists|p: Seq<usize>| is_permutation(p, all.len()) && out.len() == all.len() && forall|i: int| 0 <= i < out.len() ==> #[trigger] out[i] == all[p[i] as int]
}

/// The texts rise in the order of their bytes.
pub open spec fn bytes_ascending(ks: Seq<Seq<char>>) -> bool {
    forall|i: int, j: int| 0 <= i < j < ks.len() ==> !lex_lt(encode_utf8(ks[j]), encode_utf8(ks[i]))
}

/// The byte keys of texts, and their order.
fn text_order(texts: &Vec<String>) -> (res: Vec<usize>)
    ensures
        is_permutation(res@, texts@.len()),
        forall|a: int, b: int| 0 <= a < b < res@.len() ==> !lex_lt(encode_utf8(#[trigger] texts@[res@[b] as int]@), encode_utf8(#[trigger] texts@[res@[a] as int]@)),
{
    let mut keys: Vec<Vec<u8>> = Vec::new();
    let mut i: usize = 0;
    while i < texts.len()
        invariant
            i <= texts@.len(),
            keys@.len() == i,
            forall|k: int| 0 <= k < i ==> #[trigger] keys@[k]@ == encode_utf8(texts@[k]@),
        decreases texts@.len() - i,
    {
        let b = vstd::slice::slice_to_vec(texts[i].as_str().as_bytes());
        keys.push(b);
        i += 1;
    }
    let ghost ks = keys@.map_values(|k: Vec<u8>| k@);
    let order = stable_order(&keys);
    proof {
        assert forall|a: int, b: int| 0 <= a < b < order@.len() implies !lex_lt(encode_utf8(#[trigger] texts@[order@[b] as int]@), encode_utf8(#[trigger] texts@[order@[a] as int]@)) by {
            let x = order@[a] as int;
            let y = order@[b] as int;
            assert(crate::sorting::key_before(ks, x, y));
            assert(ks[x] == encode_utf8(texts@[x]@));
            assert(ks[y] == encode_utf8(texts@[y]@));
            lemma_lex_order(ks[x], ks[y], ks[y]);
        }
    }
    order
}

impl Outcomes {
    /// The manifest's lists: the applied keys and the skipped events, each claim settled by
    /// whether its claimant is credited on its work; each list sorted by key, byte by byte.
    pub fn settle(&self, credited: &EdgeSet) -> (res: (Vec<String>, Vec<SkippedEvent>))
        ensures
            rearranged(strings_view(res.0@), strings_view(self.applied@) + credited_keys(pending_view(self.claims@), edge_items(*credited))),
            bytes_ascending(strings_view(res.0@)),
            rearranged(skipped_view(res.1@), skipped_view(self.skipped@) + uncredited(pending_view(self.claims@), edge_items(*credited))),
            bytes_ascending(skipped_view(res.1@).map_values(|e: (Seq<char>, SkipReason)| e.0)),
    {
        let ghost cv = pending_view(self.claims@);
        let ghost cr = edge_items(*credited);
        let mut applied: Vec<String> = Vec::new();
        let mut i: usize = 0;
        while i < self.applied.len()
            invariant
                i <= self.applied@.len(),
                strings_view(applied@) == strings_view(self.applied@.subrange(0, i as int)),
            decreases self.applied@.len() - i,
        {
            let ghost before = applied@;
            applied.push(self.applied[i].clone());
            proof {
                assert(strings_view(applied@) =~= strings_view(before).push(self.applied@[i as int]@));
                assert(strings_view(self.applied@.subrange(0, i + 1)) =~= strings_view(self.applied@.subrange(0, i as int)).push(self.applied@[i as int]@));
            }
            i += 1;
        }
        let mut skipped: Vec<SkippedEvent> = Vec::new();
        let mut j: usize = 0;
        while j < self.skipped.len()
            invariant
                j <= self.skipped@.len(),
                skipped_view(skipped@) == skipped_view(self.skipped@.subrange(0, j as int)),
            decreases self.skipped@.len() - j,
        {
            let ghost before = skipped@;
            skipped.push(SkippedEvent { key: self.skipped[j].key.clone(), reason: self.skipped[j].reason });
            proof {
                let e = self.skipped@[j as int];
                assert(skipped_view(skipped@) =~= skipped_view(before).push((e.key@, e.reason)));
                assert(skipped_view(self.skipped@.subrange(0, j + 1)) =~= skipped_view(self.skipped@.subrange(0, j as int)).push((e.key@, e.reason)));
            }
            j += 1;
        }
        proof {
            assert(self.applied@.subrange(0, self.applied@.len() as int) =~= self.applied@);
            assert(self.skipped@.subrange(0, self.skipped@.len() as int) =~= self.skipped@);
            assert(cv.subrange(0, 0) =~= Seq::<(Seq<char>, u64, u64)>::empty());
        }
        let ghost a0 = strings_view(applied@);
        let ghost s0 = skipped_view(skipped@);
        let mut k: usize = 0;
        proof {
            assert(a0 + credited_keys(cv.subrange(0, 0), cr) =~= a0);
            assert(s0 + uncredited(cv.subrange(0, 0), cr) =~= s0);
        }
        while k < self.claims.len()
            invariant
                k <= self.claims@.len(),
                cv == pending_view(self.claims@),
                cr == edge_items(*credited),
                strings_view(applied@) == a0 + credited_keys(cv.subrange(0, k as int), cr),
                skipped_view(skipped@) == s0 + uncredited(cv.subrange(0, k as int), cr),
            decreases self.claims@.len() - k,
        {
            let c = &self.claims[k];
            let ghost ba = applied@;
            let ghost bs = skipped@;
            proof {
                let p = cv.subrange(0, k + 1);
                assert(p.drop_last() =~= cv.subrange(0, k as int));
                assert(p.last() == (c.key@, c.claimant, c.work));
            }
            if credited.contains((c.claimant, c.work)) {
                applied.push(c.key.clone());
                proof {
                    assert(strings_view(applied@) =~= strings_view(ba).push(c.key@));
                }
            } else {
                skipped.push(SkippedEvent { key: c.key.clone(), reason: SkipReason::ClaimantNotAttributed });
                proof {
                    assert(skipped_view(skipped@) =~= skipped_view(bs).push((c.key@, SkipReason::ClaimantNotAttributed)));
                }
            }
            k += 1;
        }
        proof {
            assert(cv.subrange(0, self.claims@.len() as int) =~= cv);
        }
        let ghost all_a = strings_view(applied@);
        let ghost all_s = skipped_view(skipped@);
        let order_a = text_order(&applied);
        let mut out_a: Vec<String> = Vec::new();
        let mut t: usize = 0;
        while t < order_a.len()
            invariant
                is_permutation(order_a@, applied@.len()),
                all_a == strings_view(applied@),
                t <= order_a@.len(),
                out_a@.len() == t,
                forall|q: int| 0 <= q < t ==> #[trigger] out_a@[q]@ == applied@[order_a@[q] as int]@,
            decreases order_a@.len() - t,
        {
            proof {
                assert(order_a@[t as int] < applied@.len());
            }
            out_a.push(applied[order_a[t]].clone());
            t += 1;
        }
        let mut skip_keys: Vec<String> = Vec::new();
        let mut u: usize = 0;
        while u < skipped.len()
            invariant
                u <= skipped@.len(),
                skip_keys@.len() == u,
                forall|q: int| 0 <= q < u ==> #[trigger] skip_keys@[q]@ == skipped@[q].key@,
            decreases skipped@.len() - u,
        {
            skip_keys.push(skipped[u].key.clone());
            u += 1;
        }
        let order_s = text_order(&skip_keys);
        let mut out_s: Vec<SkippedEvent> = Vec::new();
        let mut w: usize = 0;
        proof {
            assert(skipped_view(out_s@) =~= Seq::new(0, |q: int| all_s[order_s@[q] as int]));
        }
        while w < order_s.len()
            invariant
                is_permutation(order_s@, skip_keys@.len()),
                skip_keys@.len() == skipped@.len(),
                all_s == skipped_view(skipped@),
                w <= order_s@.len(),
                skipped_view(out_s@) == Seq::new(w as nat, |q: int| all_s[order_s@[q] as int]),
            decreases order_s@.len() - w,
        {
            let oi = order_s[w];
            proof {
                assert(order_s@[w as int] < skipped@.len());
            }
            let e = &skipped[oi];
            let ghost before = out_s@;
            let kc = e.key.clone();
            let r = e.reason;
            out_s.push(SkippedEvent { key: kc, reason: r });
            proof {
                assert(all_s[oi as int] == (kc@, r));
                assert(skipped_view(out_s@) =~= skipped_view(before).push((kc@, r)));
                assert(skipped_view(out_s@) =~= Seq::new((w + 1) as nat, |q: int| all_s[order_s@[q] as int]));
            }
            w += 1;
        }
        proof {
            let va = strings_view(out_a@);
            assert forall|q: int| 0 <= q < va.len() implies #[trigger] va[q] == all_a[order_a@[q] as int] by {
                assert(order_a@[q] < applied@.len());
            }
            assert(rearranged(va, all_a));
            assert forall|x: int, y: int| 0 <= x < y < va.len() implies !lex_lt(encode_utf8(va[y]), encode_utf8(va[x])) by {
                assert(va[x] == applied@[order_a@[x] as int]@);
                assert(va[y] == applied@[order_a@[y] as int]@);
            }
            let vs = skipped_view(out_s@);
            assert forall|q: int| 0 <= q < vs.len() implies #[trigger] vs[q] == all_s[order_s@[q] as int] by {
            }
            assert(rearranged(vs, all_s));
            let ks = vs.map_values(|e: (Seq<char>, SkipReason)| e.0);
            assert forall|x: int, y: int| 0 <= x < y < ks.len() implies !lex_lt(encode_utf8(ks[y]), encode_utf8(ks[x])) by {
                assert(order_s@[x] < skipped@.len());
                assert(order_s@[y] < skipped@.len());
                assert(ks[x] == skip_keys@[order_s@[x] as int]@);
                assert(ks[y] == skip_keys@[order_s@[y] as int]@);
            }
        }
        (out_a, out_s)
    }
}

/// Whether every key of the map leads to a root within as many steps as the map has keys: no
/// chain of aliases runs in a circle.
pub fn aliases_settle(m: &AliasMap) -> (res: bool)
    ensures
        res == settles(alias_pairs(*m)),
{
    let ghost mv = alias_pairs(*m);
    let keys = m.keys();
    let n = keys.len();
    proof {
        keys@.unique_seq_to_set();
        assert(mv.dom().finite());
        assert(mv.dom().len() == n);
    }
    let mut i: usize = 0;
    while i < n
        invariant
            mv == alias_pairs(*m),
            keys@.to_set() == mv.dom(),
            n == keys@.len(),
            mv.dom().len() == n,
            i <= n,
            forall|j: int| 0 <= j < i ==> is_root(mv, #[trigger] root_of(mv, keys@[j])),
        decreases n - i,
    {
        let k = keys[i];
        let mut cur = k;
        let mut steps: usize = 0;
        loop
            invariant
                mv == alias_pairs(*m),
                mv.dom().len() == n,
                steps <= n,
                cur == follow(mv, k, steps as nat),
            ensures
                cur == follow(mv, k, steps as nat),
                steps == n || is_root(mv, cur),
            decreases n - steps,
        {
            if steps == n {
                break;
            }
            match m.get(cur) {
                Some(next) => {
                    if next == cur {
                        break;
                    }
                    proof {
                        lemma_follow_step(mv, k, steps as nat);
                    }
                    cur = next;
                    steps += 1;
                },
                None => {
                    break;
                },
            }
        }
        proof {
            if steps < n {
                lemma_follow_stable(mv, k, steps as nat, n as nat);
            }
        }
        match m.get(cur) {
            Some(next) => {
                if next != cur {
                    proof {
                        assert(keys@.to_set().contains(k)) by {
                            assert(keys@[i as int] == k);
                        }
                        assert(!is_root(mv, root_of(mv, k)));
                    }
                    return false;
                }
            },
            None => {},
        }
        i += 1;
    }
    proof {
        assert forall|x: u64| mv.dom().contains(x) implies is_root(mv, #[trigger] root_of(mv, x)) by {
            assert(keys@.to_set().contains(x));
            let j = choose|j: int| 0 <= j < keys@.len() && keys@[j] == x;
        }
    }
    true
}

impl UserLedger {
    /// Whether resolution against the snapshot ends: the merges that apply chain into no
    /// circle, for authors and for works.
    pub fn resolvable(&self, ids: &SnapshotIds) -> (res: bool)
        ensures
            res == (settles(merged(merges_view(self.author_merges@), id_items(ids.authors)))
                && settles(merged(merges_view(self.work_merges@), id_items(ids.works)))),
    {
        let mut applied: Vec<String> = Vec::new();
        let mut skipped: Vec<SkippedEvent> = Vec::new();
        let a = apply_merges(&self.author_merges, &ids.authors, &mut applied, &mut skipped);
        let w = apply_merges(&self.work_merges, &ids.works, &mut applied, &mut skipped);
        aliases_settle(&a) && aliases_settle(&w)
    }
}

} // verus!
