//! The hashbrown maps and sets the user ledger keeps its ids in, and the map that counts an
//! author's co-authors. Each is held in a struct of its own, whose contents are named; the
//! methods below are the only calls into hashbrown, and their contracts say what hashbrown's
//! documentation says of them.
use vstd::prelude::*;

verus! {

/// Ids mapped to ids: a merged id to the id it is read as.
#[verifier::external_body]
pub struct AliasMap {
    map: hashbrown::HashMap<u64, u64>,
}

/// What an `AliasMap` holds.
pub uninterp spec fn alias_pairs(m: AliasMap) -> Map<u64, u64>;

/// The map with no keys.
pub open spec fn no_aliases() -> Map<u64, u64> {
    Map::empty()
}

/// The map with no texts.
pub open spec fn no_text_ids() -> Map<Seq<char>, u64> {
    Map::empty()
}

/// A set of ids.
#[verifier::external_body]
pub struct IdSet {
    set: hashbrown::HashSet<u64>,
}

/// What an `IdSet` holds.
pub uninterp spec fn id_items(s: IdSet) -> Set<u64>;

/// A set of (author, work) edges.
#[verifier::external_body]
pub struct EdgeSet {
    set: hashbrown::HashSet<(u64, u64)>,
}

/// What an `EdgeSet` holds.
pub uninterp spec fn edge_items(s: EdgeSet) -> Set<(u64, u64)>;

/// Texts mapped to ids: an ORCID or a DOI to an OpenAlex id.
#[verifier::external_body]
pub struct TextIdMap {
    map: hashbrown::HashMap<String, u64>,
}

/// What a `TextIdMap` holds.
pub uninterp spec fn text_id_pairs(m: TextIdMap) -> Map<Seq<char>, u64>;

/// A set of texts.
#[verifier::external_body]
pub struct TextSet {
    set: hashbrown::HashSet<String>,
}

/// What a `TextSet` holds.
pub uninterp spec fn text_items(s: TextSet) -> Set<Seq<char>>;

/// hashbrown's `HashMap::new`: an empty map.
#[verifier::external_body]
fn alias_map_new() -> (res: AliasMap)
    ensures
        alias_pairs(res) == no_aliases(),
{
    AliasMap { map: hashbrown::HashMap::new() }
}

/// hashbrown's `HashMap::get`: the value of the key, where the map holds it.
#[verifier::external_body]
fn alias_map_get(m: &AliasMap, k: u64) -> (res: Option<u64>)
    ensures
        res == (if alias_pairs(*m).dom().contains(k) {
            Some(alias_pairs(*m)[k])
        } else {
            None::<u64>
        }),
{
    m.map.get(&k).copied()
}

/// hashbrown's `HashMap::insert`: the key now maps to the value, every other key as before.
#[verifier::external_body]
fn alias_map_insert(m: &mut AliasMap, k: u64, v: u64)
    ensures
        alias_pairs(*final(m)) == alias_pairs(*old(m)).insert(k, v),
{
    m.map.insert(k, v);
}

/// hashbrown's `HashMap::keys`: each key once, in an order the contract leaves open.
#[verifier::external_body]
fn alias_map_keys(m: &AliasMap) -> (res: Vec<u64>)
    ensures
        res@.no_duplicates(),
        res@.to_set() == alias_pairs(*m).dom(),
{
    m.map.keys().copied().collect()
}

/// hashbrown's `HashSet::new`: an empty set.
#[verifier::external_body]
fn id_set_new() -> (res: IdSet)
    ensures
        id_items(res) == Set::<u64>::empty(),
{
    IdSet { set: hashbrown::HashSet::new() }
}

/// hashbrown's `HashSet::insert`: the set now holds the id too.
#[verifier::external_body]
fn id_set_insert(s: &mut IdSet, v: u64)
    ensures
        id_items(*final(s)) == id_items(*old(s)).insert(v),
{
    s.set.insert(v);
}

/// hashbrown's `HashSet::contains`.
#[verifier::external_body]
fn id_set_contains(s: &IdSet, v: u64) -> (res: bool)
    ensures
        res == id_items(*s).contains(v),
{
    s.set.contains(&v)
}

/// hashbrown's `HashSet::iter`: each id once, in an order the contract leaves open.
#[verifier::external_body]
fn id_set_items(s: &IdSet) -> (res: Vec<u64>)
    ensures
        res@.no_duplicates(),
        res@.to_set() == id_items(*s),
{
    s.set.iter().copied().collect()
}

/// hashbrown's `HashSet::new`: an empty set.
#[verifier::external_body]
fn edge_set_new() -> (res: EdgeSet)
    ensures
        edge_items(res) == Set::<(u64, u64)>::empty(),
{
    EdgeSet { set: hashbrown::HashSet::new() }
}

/// hashbrown's `HashSet::insert`: the set now holds the edge too.
#[verifier::external_body]
fn edge_set_insert(s: &mut EdgeSet, v: (u64, u64))
    ensures
        edge_items(*final(s)) == edge_items(*old(s)).insert(v),
{
    s.set.insert(v);
}

/// hashbrown's `HashSet::contains`.
#[verifier::external_body]
fn edge_set_contains(s: &EdgeSet, v: (u64, u64)) -> (res: bool)
    ensures
        res == edge_items(*s).contains(v),
{
    s.set.contains(&v)
}

/// hashbrown's `HashSet::iter`: each edge once, in an order the contract leaves open.
#[verifier::external_body]
fn edge_set_items(s: &EdgeSet) -> (res: Vec<(u64, u64)>)
    ensures
        res@.no_duplicates(),
        res@.to_set() == edge_items(*s),
{
    s.set.iter().copied().collect()
}

/// hashbrown's `HashMap::new`: an empty map.
#[verifier::external_body]
fn text_id_map_new() -> (res: TextIdMap)
    ensures
        text_id_pairs(res) == no_text_ids(),
{
    TextIdMap { map: hashbrown::HashMap::new() }
}

/// hashbrown's `HashMap::insert`: the text now maps to the id, every other text as before.
#[verifier::external_body]
fn text_id_map_insert(m: &mut TextIdMap, k: String, v: u64)
    ensures
        text_id_pairs(*final(m)) == text_id_pairs(*old(m)).insert(k@, v),
{
    m.map.insert(k, v);
}

/// hashbrown's `HashMap::get`: the id of the text, where the map holds it.
#[verifier::external_body]
fn text_id_map_get(m: &TextIdMap, k: &String) -> (res: Option<u64>)
    ensures
        res == (if text_id_pairs(*m).dom().contains(k@) {
            Some(text_id_pairs(*m)[k@])
        } else {
            None::<u64>
        }),
{
    m.map.get(k).copied()
}

/// hashbrown's `HashSet::new`: an empty set.
#[verifier::external_body]
fn text_set_new() -> (res: TextSet)
    ensures
        text_items(res) == Set::<Seq<char>>::empty(),
{
    TextSet { set: hashbrown::HashSet::new() }
}

/// hashbrown's `HashSet::insert`: the set now holds the text too.
#[verifier::external_body]
fn text_set_insert(s: &mut TextSet, v: String)
    ensures
        text_items(*final(s)) == text_items(*old(s)).insert(v@),
{
    s.set.insert(v);
}

/// hashbrown's `HashSet::contains`.
#[verifier::external_body]
fn text_set_contains(s: &TextSet, v: &String) -> (res: bool)
    ensures
        res == text_items(*s).contains(v@),
{
    s.set.contains(v)
}

/// hashbrown's `HashSet::iter`, each text cloned: each once, in an order the contract leaves
/// open.
#[verifier::external_body]
fn text_set_items(s: &TextSet) -> (res: Vec<String>)
    ensures
        res@.map_values(|t: String| t@).no_duplicates(),
        res@.map_values(|t: String| t@).to_set() == text_items(*s),
{
    s.set.iter().cloned().collect()
}

impl AliasMap {
    /// An empty map.
    pub fn new() -> (res: Self)
        ensures
            alias_pairs(res) == no_aliases(),
    {
        alias_map_new()
    }

    /// The id a key maps to, where it maps to one.
    pub fn get(&self, k: u64) -> (res: Option<u64>)
        ensures
            res == (if alias_pairs(*self).dom().contains(k) {
                Some(alias_pairs(*self)[k])
            } else {
                None::<u64>
            }),
    {
        alias_map_get(self, k)
    }

    /// Maps the key to the value.
    pub fn insert(&mut self, k: u64, v: u64)
        ensures
            alias_pairs(*final(self)) == alias_pairs(*old(self)).insert(k, v),
    {
        alias_map_insert(self, k, v)
    }

    /// The keys, each once.
    pub fn keys(&self) -> (res: Vec<u64>)
        ensures
            res@.no_duplicates(),
            res@.to_set() == alias_pairs(*self).dom(),
    {
        alias_map_keys(self)
    }
}

impl IdSet {
    /// An empty set.
    pub fn new() -> (res: Self)
        ensures
            id_items(res) == Set::<u64>::empty(),
    {
        id_set_new()
    }

    /// Adds an id.
    pub fn insert(&mut self, v: u64)
        ensures
            id_items(*final(self)) == id_items(*old(self)).insert(v),
    {
        id_set_insert(self, v)
    }

    /// Whether the set holds the id.
    pub fn contains(&self, v: u64) -> (res: bool)
        ensures
            res == id_items(*self).contains(v),
    {
        id_set_contains(self, v)
    }

    /// The ids, each once.
    pub fn items(&self) -> (res: Vec<u64>)
        ensures
            res@.no_duplicates(),
            res@.to_set() == id_items(*self),
    {
        id_set_items(self)
    }
}

impl EdgeSet {
    /// An empty set.
    pub fn new() -> (res: Self)
        ensures
            edge_items(res) == Set::<(u64, u64)>::empty(),
    {
        edge_set_new()
    }

    /// Adds an edge.
    pub fn insert(&mut self, v: (u64, u64))
        ensures
            edge_items(*final(self)) == edge_items(*old(self)).insert(v),
    {
        edge_set_insert(self, v)
    }

    /// Whether the set holds the edge.
    pub fn contains(&self, v: (u64, u64)) -> (res: bool)
        ensures
            res == edge_items(*self).contains(v),
    {
        edge_set_contains(self, v)
    }

    /// The edges, each once.
    pub fn items(&self) -> (res: Vec<(u64, u64)>)
        ensures
            res@.no_duplicates(),
            res@.to_set() == edge_items(*self),
    {
        edge_set_items(self)
    }
}

impl TextIdMap {
    /// An empty map.
    pub fn new() -> (res: Self)
        ensures
            text_id_pairs(res) == no_text_ids(),
    {
        text_id_map_new()
    }

    /// Maps the text to the id.
    pub fn insert(&mut self, k: String, v: u64)
        ensures
            text_id_pairs(*final(self)) == text_id_pairs(*old(self)).insert(k@, v),
    {
        text_id_map_insert(self, k, v)
    }

    /// The id of the text, where the map holds it.
    pub fn get(&self, k: &String) -> (res: Option<u64>)
        ensures
            res == (if text_id_pairs(*self).dom().contains(k@) {
                Some(text_id_pairs(*self)[k@])
            } else {
                None::<u64>
            }),
    {
        text_id_map_get(self, k)
    }
}

impl TextSet {
    /// An empty set.
    pub fn new() -> (res: Self)
        ensures
            text_items(res) == Set::<Seq<char>>::empty(),
    {
        text_set_new()
    }

    /// Adds a text.
    pub fn insert(&mut self, v: String)
        ensures
            text_items(*final(self)) == text_items(*old(self)).insert(v@),
    {
        text_set_insert(self, v)
    }

    /// Whether the set holds the text.
    pub fn contains(&self, v: &String) -> (res: bool)
        ensures
            res == text_items(*self).contains(v@),
    {
        text_set_contains(self, v)
    }

    /// The texts, each once.
    pub fn items(&self) -> (res: Vec<String>)
        ensures
            res@.map_values(|t: String| t@).no_duplicates(),
            res@.map_values(|t: String| t@).to_set() == text_items(*self),
    {
        text_set_items(self)
    }
}

/// Author ids mapped to how often they were met.
#[verifier::external_body]
pub struct CountMap {
    map: hashbrown::HashMap<u32, u8>,
}

/// What a `CountMap` holds.
pub uninterp spec fn count_pairs(m: CountMap) -> Map<u32, u8>;

/// The map with no authors.
pub open spec fn no_counts() -> Map<u32, u8> {
    Map::empty()
}

/// hashbrown's `HashMap::new`: an empty map.
#[verifier::external_body]
pub(crate) fn count_map_new() -> (res: CountMap)
    ensures
        count_pairs(res) == no_counts(),
{
    CountMap { map: hashbrown::HashMap::new() }
}

/// hashbrown's `HashMap::get`: the count of the key, where the map holds it.
#[verifier::external_body]
pub(crate) fn count_map_get(m: &CountMap, k: u32) -> (res: Option<u8>)
    ensures
        res == (if count_pairs(*m).dom().contains(k) {
            Some(count_pairs(*m)[k])
        } else {
            None::<u8>
        }),
{
    m.map.get(&k).copied()
}

/// hashbrown's `HashMap::insert`: the key now maps to the count, every other key as before.
#[verifier::external_body]
pub(crate) fn count_map_insert(m: &mut CountMap, k: u32, v: u8)
    ensures
        count_pairs(*final(m)) == count_pairs(*old(m)).insert(k, v),
{
    m.map.insert(k, v);
}

/// hashbrown's `HashMap::into_iter`: each key with its count once, in an order the contract
/// leaves open.
#[verifier::external_body]
pub(crate) fn count_map_into_pairs(m: CountMap) -> (res: Vec<(u32, u8)>)
    ensures
        res@.no_duplicates(),
        forall|i: int|
            0 <= i < res@.len() ==> count_pairs(m).dom().contains((#[trigger] res@[i]).0)
                && count_pairs(m)[res@[i].0] == res@[i].1,
        forall|k: u32|
            #[trigger] count_pairs(m).dom().contains(k) ==> exists|i: int|
                0 <= i < res@.len() && (#[trigger] res@[i]).0 == k,
{
    m.map.into_iter().collect()
}

/// Sources mapped to the set of their targets, as the filter step groups its rows.
#[verifier::external_body]
pub struct GroupMap {
    map: hashbrown::HashMap<u64, hashbrown::HashSet<u64>>,
}

/// What a `GroupMap` holds: each source with its targets.
pub uninterp spec fn group_sets(m: GroupMap) -> Map<u64, Set<u64>>;

/// The set with no targets.
pub open spec fn no_targets() -> Set<u64> {
    Set::empty()
}

/// The map with no sources.
pub open spec fn no_groups() -> Map<u64, Set<u64>> {
    Map::empty()
}

/// hashbrown's `HashMap::new`: an empty map.
#[verifier::external_body]
pub(crate) fn group_map_new() -> (res: GroupMap)
    ensures
        group_sets(res) == no_groups(),
{
    GroupMap { map: hashbrown::HashMap::new() }
}

/// hashbrown's `HashMap::entry` with `or_default`: the key maps to an empty set where it
/// mapped to nothing, every entry else as before.
#[verifier::external_body]
pub(crate) fn group_map_open(m: &mut GroupMap, k: u64)
    ensures
        group_sets(*final(m)) == (if group_sets(*old(m)).dom().contains(k) {
            group_sets(*old(m))
        } else {
            group_sets(*old(m)).insert(k, no_targets())
        }),
{
    m.map.entry(k).or_default();
}

/// hashbrown's `HashSet::len` on the set of a key: how many targets it holds.
#[verifier::external_body]
pub(crate) fn group_map_count(m: &GroupMap, k: u64) -> (res: usize)
    requires
        group_sets(*m).dom().contains(k),
    ensures
        res == group_sets(*m)[k].len(),
{
    m.map[&k].len()
}

/// hashbrown's `HashSet::insert` on the set of a key: it holds the target too, every entry
/// else as before.
#[verifier::external_body]
pub(crate) fn group_map_add(m: &mut GroupMap, k: u64, t: u64)
    requires
        group_sets(*old(m)).dom().contains(k),
    ensures
        group_sets(*final(m)) == group_sets(*old(m)).insert(k, group_sets(*old(m))[k].insert(t)),
{
    m.map.entry(k).or_default().insert(t);
}

/// hashbrown's `HashMap::into_iter`, and `HashSet::into_iter` on each set: each source once
/// with its targets each once, in orders the contract leaves open.
#[verifier::external_body]
pub(crate) fn group_map_into_groups(m: GroupMap) -> (res: Vec<(u64, Vec<u64>)>)
    ensures
        forall|i: int, j: int| 0 <= i < j < res@.len() ==> res@[i].0 != res@[j].0,
        forall|i: int|
            0 <= i < res@.len() ==> group_sets(m).dom().contains((#[trigger] res@[i]).0)
                && res@[i].1@.no_duplicates() && res@[i].1@.to_set() == group_sets(m)[res@[i].0],
        forall|k: u64|
            #[trigger] group_sets(m).dom().contains(k) ==> exists|i: int|
                0 <= i < res@.len() && (#[trigger] res@[i]).0 == k,
{
    m.map.into_iter().map(|(k, s)| (k, s.into_iter().collect())).collect()
}

} // verus!
