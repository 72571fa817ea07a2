//! The persisted prior-sync state — the single fact that makes two-way sync
//! safe (it tells "deleted here" from "newly created there"). Stored per pair,
//! versioned and checksummed. A missing or corrupt baseline is reported
//! explicitly so the caller falls back to first-sync union mode and never
//! misreads it as "everything deleted".
use crate::entries::EntryMap;
use crate::model::Meta;
use vstd::prelude::*;

verus! {

/// On-disk format version.
pub const BASELINE_VERSION: u32 = 1;

/// The lowercase hexadecimal blake3 digest of a byte sequence.
pub uninterp spec fn blake3_hex(data: Seq<u8>) -> Seq<char>;

/// Calls `blake3::hash` and renders the digest with `Hash::to_hex`. Claimed:
/// the result is the digest named by `blake3_hex` of exactly these bytes, and
/// it is 64 characters long (the fixed width of `to_hex`).
#[verifier::external_body]
pub(crate) fn blake3_hex_digest(data: &[u8]) -> (r: String)
    ensures
        r@ == blake3_hex(data@),
        r@.len() == 64,
{
    blake3::hash(data).to_hex().to_string()
}

pub struct Baseline {
    pub entries: EntryMap,
}

/// The outcome of trying to load a baseline. `Missing` and `Corrupt` mean "no
/// trustworthy prior state": first-sync union, zero deletions.
pub enum LoadOutcome {
    Loaded(Baseline),
    Missing,
    Corrupt,
}

/// The baseline after recording `meta` for `key` (`None` forgets it).
pub open spec fn updated_view(before: Map<Seq<char>, Meta>, key: Seq<char>, meta: Option<Meta>) -> Map<Seq<char>, Meta> {
    match meta {
        Some(m) => before.insert(key, m),
        None => before.remove(key),
    }
}

impl Baseline {
    pub open spec fn wf(&self) -> bool {
        self.entries.wf()
    }

    pub open spec fn view(&self) -> Map<Seq<char>, Meta> {
        self.entries.map()
    }

    /// An empty baseline (first sync).
    pub fn new() -> (r: Baseline)
        ensures
            r.wf(),
            r.view() == Map::<Seq<char>, Meta>::empty(),
    {
        Baseline { entries: EntryMap::new() }
    }

    pub fn get(&self, key: &str) -> (r: Option<&Meta>)
        requires
            self.wf(),
        ensures
            r is Some <==> self.view().contains_key(key@),
            r matches Some(m) ==> *m == self.view()[key@],
    {
        self.entries.get(key)
    }

    /// Update one path after a successfully-applied item. `None` removes it.
    pub fn update_entry(&mut self, key: &str, meta: Option<Meta>)
        requires
            old(self).wf(),
        ensures
            final(self).wf(),
            final(self).view() == updated_view(old(self).view(), key@, meta),
    {
        match meta {
            Some(m) => {
                let k = String::from_str(key);
                self.entries.insert(k, m);
            },
            None => {
                self.entries.remove(key);
            },
        }
    }

    /// The checksum stored beside the entries: blake3 over their canonical
    /// JSON encoding.
    pub fn checksum_of(entries_json: &[u8]) -> (r: String)
        ensures
            r@ == blake3_hex(entries_json@),
    {
        blake3_hex_digest(entries_json)
    }

    /// Interpret a decoded on-disk record: a wrong version or a checksum that
    /// does not match the canonical JSON of the entries is `Corrupt`, never a
    /// partial or empty baseline.
    pub fn from_record(version: u32, checksum: &str, entries: EntryMap, entries_json: &[u8]) -> (r: LoadOutcome)
        requires
            entries.wf(),
        ensures
            (r is Loaded) <==> (version == BASELINE_VERSION && checksum@ == blake3_hex(entries_json@)),
            r matches LoadOutcome::Loaded(b) ==> b.wf() && b.view() == entries.map(),
            !(r is Loaded) ==> r is Corrupt,
    {
        if version != BASELINE_VERSION {
            return LoadOutcome::Corrupt;
        }
        let expected = Self::checksum_of(entries_json);
        let stored = String::from_str(checksum);
        if expected != stored {
            return LoadOutcome::Corrupt;
        }
        LoadOutcome::Loaded(Baseline { entries })
    }
}

impl Default for Baseline {
    fn default() -> (r: Baseline)
        ensures
            r.wf(),
            r.view() == Map::<Seq<char>, Meta>::empty(),
    {
        Baseline::new()
    }
}

/// A read gives back what the last update wrote: after `update_entry(k, m)`,
/// `get(k)` is `m`, and every other path keeps its previous snapshot.
pub proof fn law_get_after_update(before: Map<Seq<char>, Meta>, key: Seq<char>, meta: Option<Meta>, other: Seq<char>)
    requires
        other != key,
    ensures
        updated_view(before, key, meta).contains_key(key) == (meta is Some),
        meta matches Some(m) ==> updated_view(before, key, meta)[key] == m,
        updated_view(before, key, meta).contains_key(other) == before.contains_key(other),
        before.contains_key(other) ==> updated_view(before, key, meta)[other] == before[other],
{
}

} // verus!
