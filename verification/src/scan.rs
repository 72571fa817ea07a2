//! The rules of directory enumeration that do not touch the disk: what a
//! scan result says about deletions, how many walker threads a scan uses,
//! which entries are never traversed or copied, how a modification time is
//! read, and the live per-folder activity tally shown while scanning.
use crate::entries::{EntryMap, KeyMap};
use crate::keys::{chars_of, key_order, lemma_lt_asymmetric, lemma_lt_irreflexive, lemma_lt_total, lemma_lt_transitive, seq_lt, KeyOrder};
use crate::text::{first_index, lemma_first_index, lemma_first_index_bound};
use vstd::prelude::*;
use vstd::string::StringSliceAdditionalSpecFns;

verus! {

pub struct ScanResult {
    pub entries: EntryMap,
    /// Entries intentionally not synced (symlink, reparse point, cloud stub,
    /// special file): expected, non-fatal.
    pub skipped: Vec<(String, String)>,
    /// Genuine enumeration failures: those paths are unknown, not deleted,
    /// so deletions must be suppressed this run.
    pub errors: Vec<(String, String)>,
}

impl ScanResult {
    pub fn had_errors(&self) -> (r: bool)
        ensures
            r == (self.errors@.len() > 0),
    {
        self.errors.len() > 0
    }
}

/// Upper bound for an explicit thread-count override.
pub const MAX_SCAN_THREADS: usize = 256;

/// The auto walker thread count: the CPU count clamped to `4..=16`, or 8
/// when it cannot be read.
pub open spec fn spec_default_threads(cpus: Option<usize>) -> usize {
    match cpus {
        Some(n) => if n < 4 {
            4
        } else if n > 16 {
            16
        } else {
            n
        },
        None => 8,
    }
}

/// The effective walker thread count: `0` asks for the conservative auto
/// default (from the machine's CPU count, `cpus`), any other value is an
/// explicit override clamped to `1..=MAX_SCAN_THREADS`.
pub fn resolve_scan_threads(requested: usize, cpus: Option<usize>) -> (r: usize)
    ensures
        r == if requested == 0 {
            spec_default_threads(cpus)
        } else if requested > MAX_SCAN_THREADS {
            MAX_SCAN_THREADS
        } else {
            requested
        },
{
    if requested == 0 {
        match cpus {
            Some(n) => if n < 4 {
                4
            } else if n > 16 {
                16
            } else {
                n
            },
            None => 8,
        }
    } else if requested > MAX_SCAN_THREADS {
        MAX_SCAN_THREADS
    } else {
        requested
    }
}

/// Why an entry must never be traversed or copied, if so: a symlink
/// (escape risk, writing through it clobbers its target); on Windows (the
/// file attributes are given) a reparse point or junction, or an
/// un-hydrated cloud placeholder.
pub open spec fn spec_unsafe_to_sync(is_symlink: bool, attributes: Option<u32>) -> Option<Seq<char>> {
    if is_symlink {
        Some("symlink (not followed)"@)
    } else {
        match attributes {
            Some(a) => if a & 0x0000_0400u32 != 0 {
                Some("reparse point / junction (not traversed)"@)
            } else if a & (0x0000_1000u32 | 0x0004_0000u32 | 0x0040_0000u32) != 0 {
                Some("cloud placeholder, not hydrated (skipped to avoid data loss)"@)
            } else {
                None
            },
            None => None,
        }
    }
}

pub fn unsafe_to_sync(is_symlink: bool, attributes: Option<u32>) -> (r: Option<&'static str>)
    ensures
        match spec_unsafe_to_sync(is_symlink, attributes) {
            Some(m) => r matches Some(s) && s@ == m,
            None => r is None,
        },
{
    if is_symlink {
        return Some("symlink (not followed)");
    }
    match attributes {
        Some(a) => {
            if a & 0x0000_0400u32 != 0 {
                Some("reparse point / junction (not traversed)")
            } else if a & (0x0000_1000u32 | 0x0004_0000u32 | 0x0040_0000u32) != 0 {
                Some("cloud placeholder, not hydrated (skipped to avoid data loss)")
            } else {
                None
            }
        },
        None => None,
    }
}

/// A modification time as signed nanoseconds from the epoch: the distance
/// after (or, negated, before) the epoch, capped at `i64::MAX` nanoseconds.
pub fn signed_nanos(before_epoch: bool, nanos: u128) -> (r: i64)
    ensures
        r == if before_epoch {
            -(if nanos > i64::MAX as u128 { i64::MAX as int } else { nanos as int })
        } else {
            if nanos > i64::MAX as u128 { i64::MAX as int } else { nanos as int }
        },
{
    let capped: i64 = if nanos > 0x7fff_ffff_ffff_ffff {
        0x7fff_ffff_ffff_ffff
    } else {
        nanos as i64
    };
    if before_epoch {
        -capped
    } else {
        capped
    }
}

// ---------------------------------------------------------------------------
// Live folder activity
// ---------------------------------------------------------------------------

/// Number of shards of the activity tally.
pub const SCAN_TREE_SHARDS: usize = 16;

/// Distinct folders a shard keeps; further ones fold into the root bucket.
pub const SCAN_TREE_MAX_KEYS_PER_SHARD: usize = 256;

/// FNV-1a over bytes.
pub open spec fn fnv1a(bytes: Seq<u8>) -> u64
    decreases bytes.len(),
{
    if bytes.len() == 0 {
        0xcbf2_9ce4_8422_2325
    } else {
        vstd::wrapping::u64_specs::wrapping_mul(fnv1a(bytes.drop_last()) ^ (bytes.last() as u64), 0x0000_0100_0000_01b3)
    }
}

/// The shard a bucket lives in: FNV-1a of its UTF-8 bytes, modulo the shard
/// count.
pub open spec fn shard_of(bucket: Seq<char>) -> int {
    (fnv1a(vstd::utf8::encode_utf8(bucket)) % 16) as int
}

pub fn shard_index(key: &str) -> (r: usize)
    ensures
        r as int == shard_of(key@),
        r < SCAN_TREE_SHARDS,
{
    let bytes = key.as_bytes();
    let mut h: u64 = 0xcbf2_9ce4_8422_2325;
    let mut k: usize = 0;
    while k < bytes.len()
        invariant
            k <= bytes@.len(),
            bytes@ == key.spec_bytes(),
            h == fnv1a(bytes@.take(k as int)),
        decreases bytes@.len() - k,
    {
        proof {
            assert(bytes@.take(k + 1).drop_last() =~= bytes@.take(k as int));
            assert(bytes@.take(k + 1).last() == bytes@[k as int]);
        }
        h = h ^ (bytes[k] as u64);
        h = h.wrapping_mul(0x0000_0100_0000_01b3);
        k = k + 1;
    }
    proof {
        assert(bytes@.take(bytes@.len() as int) =~= bytes@);
    }
    (h % 16) as usize
}

/// The prefix of `s` before its `(n + 1)`-th `/` (all of `s` with fewer).
pub open spec fn cut_at_slash(s: Seq<char>, n: nat) -> Seq<char>
    decreases s.len(),
{
    if s.len() == 0 {
        s
    } else if s[0] == '/' {
        if n == 0 {
            Seq::empty()
        } else {
            seq![s[0]] + cut_at_slash(s.drop_first(), (n - 1) as nat)
        }
    } else {
        seq![s[0]] + cut_at_slash(s.drop_first(), n)
    }
}

/// Index of the last `c`.
pub open spec fn last_slash(s: Seq<char>) -> Option<int>
    decreases s.len(),
{
    if s.len() == 0 {
        None
    } else if s.last() == '/' {
        Some(s.len() - 1)
    } else {
        last_slash(s.drop_last())
    }
}

/// The folder an entry counts toward: its first `depth` path segments (of
/// the directory itself, or of a file's parent); root-level files count
/// toward `""`.
pub open spec fn spec_bucket(key: Seq<char>, is_dir: bool, depth: nat) -> Seq<char> {
    let dir = if is_dir {
        key
    } else {
        match last_slash(key) {
            Some(i) => key.take(i),
            None => Seq::empty(),
        }
    };
    if dir.len() == 0 {
        dir
    } else {
        cut_at_slash(dir, (depth - 1) as nat)
    }
}

fn bucket_of(key: &str, is_dir: bool, depth: usize) -> (r: String)
    requires
        depth >= 1,
    ensures
        r@ == spec_bucket(key@, is_dir, depth as nat),
{
    let s = chars_of(key);
    let n = s.len();
    let mut end = n;
    proof {
        assert(s@.take(n as int) =~= s@);
    }
    if !is_dir {
        while end > 0 && s[end - 1] != '/'
            invariant
                end <= n,
                n == s@.len(),
                last_slash(s@) == last_slash(s@.take(end as int)),
            decreases end,
        {
            proof {
                assert(s@.take(end as int).drop_last() =~= s@.take(end - 1));
                assert(s@.take(end as int).last() == s@[end - 1]);
            }
            end = end - 1;
        }
        proof {
            assert(s@.take(n as int) =~= s@);
        }
        if end > 0 {
            proof {
                assert(s@.take(end as int).last() == s@[end - 1]);
                assert(last_slash(s@) == Some(end - 1));
            }
            end = end - 1;
        } else {
            proof {
                assert(last_slash(s@) is None);
            }
        }
    }
    let ghost dir = s@.take(end as int);
    proof {
        if is_dir {
            assert(dir =~= s@);
        }
    }
    let mut out: Vec<char> = Vec::new();
    let mut seen: usize = 0;
    let mut k: usize = 0;
    let mut stop = false;
    proof {
        assert(dir.skip(0) =~= dir);
    }
    while k < end && !stop
        invariant
            k <= end <= n,
            n == s@.len(),
            dir == s@.take(end as int),
            seen < depth,
            stop ==> cut_at_slash(dir, (depth - 1) as nat) == out@,
            !stop ==> cut_at_slash(dir, (depth - 1) as nat) == out@ + cut_at_slash(dir.skip(k as int), (depth - 1 - seen) as nat),
        decreases end - k + (if stop { 0int } else { 1int }),
    {
        let c = s[k];
        proof {
            let rest = dir.skip(k as int);
            assert(rest[0] == c);
            assert(rest.drop_first() =~= dir.skip(k + 1));
        }
        if c == '/' {
            if seen + 1 == depth {
                stop = true;
                proof {
                    assert(out@ + Seq::<char>::empty() =~= out@);
                }
            } else {
                let ghost before = out@;
                out.push(c);
                seen = seen + 1;
                k = k + 1;
                proof {
                    assert(before + (seq![c] + cut_at_slash(dir.skip(k as int), (depth - 1 - seen) as nat)) =~= out@
                        + cut_at_slash(dir.skip(k as int), (depth - 1 - seen) as nat));
                }
            }
        } else {
            let ghost before = out@;
            out.push(c);
            k = k + 1;
            proof {
                assert(before + (seq![c] + cut_at_slash(dir.skip(k as int), (depth - 1 - seen) as nat)) =~= out@
                    + cut_at_slash(dir.skip(k as int), (depth - 1 - seen) as nat));
            }
        }
    }
    proof {
        if !stop {
            assert(dir.skip(k as int) =~= Seq::<char>::empty());
            assert(out@ + Seq::<char>::empty() =~= out@);
        }
        if end == 0 {
            assert(dir =~= Seq::<char>::empty());
        }
    }
    string_of(&out)
}

fn string_of(v: &Vec<char>) -> (r: String)
    ensures
        r@ == v@,
{
    crate::fmt::string_from_chars(v)
}

/// `a + b`, saturating at `u64::MAX`.
pub open spec fn sat_add(a: int, b: int) -> u64 {
    if a + b > u64::MAX {
        u64::MAX
    } else {
        (a + b) as u64
    }
}

pub open spec fn count_in(m: Map<Seq<char>, u64>, k: Seq<char>) -> int {
    if m.contains_key(k) {
        m[k] as int
    } else {
        0
    }
}

/// A shard after tallying one entry under `b`: a known folder counts up; a
/// new one is added while the shard has room; otherwise the entry folds into
/// the root bucket `""`.
pub open spec fn tallied(m: Map<Seq<char>, u64>, b: Seq<char>) -> Map<Seq<char>, u64> {
    if m.contains_key(b) {
        m.insert(b, sat_add(m[b] as int, 1))
    } else if m.dom().len() < SCAN_TREE_MAX_KEYS_PER_SHARD {
        m.insert(b, 1)
    } else {
        m.insert(Seq::<char>::empty(), sat_add(count_in(m, Seq::<char>::empty()), 1))
    }
}

/// Two tallies added together (saturating).
pub open spec fn merge_into(acc: Map<Seq<char>, u64>, m: Map<Seq<char>, u64>) -> Map<Seq<char>, u64> {
    Map::new(
        |k: Seq<char>| acc.contains_key(k) || m.contains_key(k),
        |k: Seq<char>| sat_add(count_in(acc, k), count_in(m, k)),
    )
}

/// All shards' tallies added together.
pub open spec fn merged(ms: Seq<Map<Seq<char>, u64>>) -> Map<Seq<char>, u64>
    decreases ms.len(),
{
    if ms.len() == 0 {
        Map::empty()
    } else {
        merge_into(merged(ms.drop_last()), ms.last())
    }
}

/// Folder `a` is listed before `b`: a higher count first, ties by path.
pub open spec fn ranks_before(a: (Seq<char>, u64), b: (Seq<char>, u64)) -> bool {
    a.1 > b.1 || (a.1 == b.1 && seq_lt(a.0, b.0))
}

pub open spec fn listing(v: Seq<(String, u64)>) -> Seq<(Seq<char>, u64)> {
    Seq::new(v.len(), |i: int| (v[i].0@, v[i].1))
}

/// `l` lists the busiest folders of the tally `m`, at most `max` of them:
/// each with its count, by descending count then path, and every folder left
/// out ranks after the last one listed.
pub open spec fn top_folders(m: Map<Seq<char>, u64>, l: Seq<(Seq<char>, u64)>, max: usize) -> bool {
    &&& l.len() <= max
    &&& forall|i: int| 0 <= i < l.len() ==> m.contains_key(#[trigger] l[i].0) && m[l[i].0] == l[i].1
    &&& forall|i: int, j: int| 0 <= i < j < l.len() ==> ranks_before(#[trigger] l[i], #[trigger] l[j])
    &&& forall|k: Seq<char>| #[trigger] m.contains_key(k) ==> (exists|i: int| 0 <= i < l.len() && #[trigger] l[i].0 == k)
        || (l.len() == max && (max > 0 ==> ranks_before(l[max - 1], (k, m[k]))))
}

/// Live folder-activity tally for the scan phase: each recorded entry
/// counts toward its shallow folder bucket, kept in sixteen shards of at most
/// `SCAN_TREE_MAX_KEYS_PER_SHARD` folders each.
pub struct ScanTree {
    depth: usize,
    shards: Vec<KeyMap<u64>>,
}

impl ScanTree {
    pub closed spec fn wf(&self) -> bool {
        &&& self.depth >= 1
        &&& self.shards@.len() == SCAN_TREE_SHARDS
        &&& forall|i: int| 0 <= i < self.shards@.len() ==> (#[trigger] self.shards@[i]).wf()
    }

    pub closed spec fn depth_of(&self) -> nat {
        self.depth as nat
    }

    /// Each shard's tally.
    pub closed spec fn shard_maps(&self) -> Seq<Map<Seq<char>, u64>> {
        Seq::new(self.shards@.len(), |i: int| self.shards@[i].map())
    }

    fn empty_shards() -> (r: Vec<KeyMap<u64>>)
        ensures
            r@.len() == SCAN_TREE_SHARDS,
            forall|i: int| 0 <= i < r@.len() ==> (#[trigger] r@[i]).wf() && r@[i].map() == Map::<Seq<char>, u64>::empty(),
    {
        let mut shards: Vec<KeyMap<u64>> = Vec::new();
        let mut k: usize = 0;
        while k < SCAN_TREE_SHARDS
            invariant
                k <= SCAN_TREE_SHARDS,
                shards@.len() == k,
                forall|i: int| 0 <= i < k ==> (#[trigger] shards@[i]).wf() && shards@[i].map() == Map::<Seq<char>, u64>::empty(),
            decreases SCAN_TREE_SHARDS - k,
        {
            shards.push(KeyMap::new());
            k = k + 1;
        }
        shards
    }

    /// An empty tally keyed on the first `depth` path segments (at least one).
    pub fn new(depth: usize) -> (r: ScanTree)
        ensures
            r.wf(),
            r.depth_of() == if depth >= 1 { depth as nat } else { 1nat },
            r.shard_maps().len() == SCAN_TREE_SHARDS,
            forall|i: int| 0 <= i < SCAN_TREE_SHARDS ==> #[trigger] r.shard_maps()[i] == Map::<Seq<char>, u64>::empty(),
    {
        let shards = Self::empty_shards();
        ScanTree { depth: if depth >= 1 { depth } else { 1 }, shards }
    }

    /// Count one recorded entry under its folder bucket.
    pub fn record(&mut self, key: &str, is_dir: bool)
        requires
            old(self).wf(),
        ensures
            final(self).wf(),
            final(self).depth_of() == old(self).depth_of(),
            ({
                let b = spec_bucket(key@, is_dir, old(self).depth_of());
                final(self).shard_maps() == old(self).shard_maps().update(
                    shard_of(b),
                    tallied(old(self).shard_maps()[shard_of(b)], b),
                )
            }),
    {
        let b = bucket_of(key, is_dir, self.depth);
        let i = shard_index(b.as_str());
        let ghost before = self.shard_maps();
        let mut shard = self.shards.remove(i);
        proof {
            assert(shard.wf());
            shard.lemma_len();
        }
        let cur = match shard.get(b.as_str()) {
            Some(c) => Some(*c),
            None => None,
        };
        match cur {
            Some(c) => {
                let n = if c < u64::MAX { c + 1 } else { u64::MAX };
                shard.insert(b, n);
            },
            None => {
                if shard.len() < SCAN_TREE_MAX_KEYS_PER_SHARD {
                    shard.insert(b, 1);
                } else {
                    let root = String::new();
                    let c0 = match shard.get(root.as_str()) {
                        Some(c) => *c,
                        None => 0,
                    };
                    let n = if c0 < u64::MAX { c0 + 1 } else { u64::MAX };
                    shard.insert(root, n);
                }
            },
        }
        let ghost new_map = shard.map();
        self.shards.insert(i, shard);
        proof {
            assert(self.shard_maps() =~= before.update(i as int, new_map));
        }
    }

    /// Forget every count (at each pair boundary, so the live view shows only
    /// the pair being scanned).
    pub fn clear(&mut self)
        requires
            old(self).wf(),
        ensures
            final(self).wf(),
            final(self).depth_of() == old(self).depth_of(),
            final(self).shard_maps().len() == SCAN_TREE_SHARDS,
            forall|i: int| 0 <= i < SCAN_TREE_SHARDS ==> #[trigger] final(self).shard_maps()[i] == Map::<Seq<char>, u64>::empty(),
    {
        self.shards = Self::empty_shards();
    }

    /// The busiest folders, at most `max` of them: every folder's count summed
    /// over the shards (saturating), listed by descending count, ties by path.
    pub fn snapshot(&self, max: usize) -> (r: Vec<(String, u64)>)
        requires
            self.wf(),
        ensures
            top_folders(merged(self.shard_maps()), listing(r@), max),
    {
        let acc = self.merge_shards();
        let ghost m = merged(self.shard_maps());
        proof {
            acc.lemma_view();
        }
        let mut sorted: Vec<(String, u64)> = Vec::new();
        let n = acc.len();
        let mut j: usize = 0;
        while j < n
            invariant
                j <= n,
                n == acc.key_seq().len(),
                acc.wf(),
                acc.map() == m,
                crate::keys::strictly_sorted(acc.key_seq()),
                acc.key_seq().len() == acc.value_seq().len(),
                forall|i: int| 0 <= i < acc.key_seq().len() ==> #[trigger] acc.map()[acc.key_seq()[i]] == acc.value_seq()[i],
                forall|k: Seq<char>| #[trigger] acc.map().contains_key(k) <==> acc.key_seq().contains(k),
                sorted@.len() == j,
                forall|a: int, b: int| 0 <= a < b < sorted@.len() ==> ranks_before(#[trigger] listing(sorted@)[a], #[trigger] listing(sorted@)[b]),
                forall|a: int| 0 <= a < sorted@.len() ==> m.contains_key(#[trigger] listing(sorted@)[a].0) && m[listing(sorted@)[a].0] == listing(sorted@)[a].1,
                forall|q: int| 0 <= q < j ==> #[trigger] listing(sorted@).contains((acc.key_seq()[q], acc.value_seq()[q])),
                forall|a: int| 0 <= a < sorted@.len() ==> acc.key_seq().take(j as int).contains(#[trigger] listing(sorted@)[a].0),
            decreases n - j,
        {
            let k = acc.key_at(j).clone();
            let v = *acc.value_at(j);
            proof {
                assert(forall|a: int| 0 <= a < sorted@.len() ==> listing(sorted@)[a].0 != k@) by {
                    assert forall|a: int| 0 <= a < sorted@.len() implies listing(sorted@)[a].0 != k@ by {
                        let ks = acc.key_seq().take(j as int);
                        assert(ks.contains(listing(sorted@)[a].0));
                        let q = choose|q: int| 0 <= q < ks.len() && #[trigger] ks[q] == listing(sorted@)[a].0;
                        assert(acc.key_seq()[q] == ks[q]);
                        crate::keys::lemma_sorted_distinct(acc.key_seq(), q, j as int);
                    }
                }
                assert(acc.key_seq().contains(k@));
            }
            let ghost old_sorted = listing(sorted@);
            let ghost kv = (k@, v);
            insert_ranked(&mut sorted, k, v);
            proof {
                assert(acc.key_seq()[j as int] == kv.0 && acc.value_seq()[j as int] == kv.1);
                assert(acc.key_seq().take(j + 1)[j as int] == kv.0);
                assert forall|a: int| 0 <= a < sorted@.len() implies m.contains_key(#[trigger] listing(sorted@)[a].0)
                    && m[listing(sorted@)[a].0] == listing(sorted@)[a].1 && acc.key_seq().take(j + 1).contains(listing(sorted@)[a].0) by {
                    let e = listing(sorted@)[a];
                    assert(listing(sorted@).contains(e));
                    if e != kv {
                        assert(old_sorted.contains(e));
                        let b = choose|b: int| 0 <= b < old_sorted.len() && old_sorted[b] == e;
                        assert(old_sorted[b].0 == e.0);
                        let ks = acc.key_seq().take(j as int);
                        assert(ks.contains(e.0));
                        let q = choose|q: int| 0 <= q < ks.len() && #[trigger] ks[q] == e.0;
                        assert(acc.key_seq().take(j + 1)[q] == e.0);
                    }
                }
                assert forall|q: int| 0 <= q < j + 1 implies #[trigger] listing(sorted@).contains((acc.key_seq()[q], acc.value_seq()[q])) by {
                    if q == j {
                    }
                }
            }
            j = j + 1;
        }
        let ghost full = listing(sorted@);
        proof {
            assert forall|k: Seq<char>| #[trigger] m.contains_key(k) implies (exists|i: int| 0 <= i < full.len() && #[trigger] full[i].0 == k) by {
                assert(acc.key_seq().contains(k));
                let q = choose|q: int| 0 <= q < acc.key_seq().len() && acc.key_seq()[q] == k;
                assert(full.contains((acc.key_seq()[q], acc.value_seq()[q])));
                let i = choose|i: int| 0 <= i < full.len() && full[i] == (acc.key_seq()[q], acc.value_seq()[q]);
                assert(full[i].0 == k);
            }
        }
        sorted.truncate(max);
        proof {
            let l = listing(sorted@);
            assert forall|k: Seq<char>| #[trigger] m.contains_key(k) implies (exists|i: int| 0 <= i < l.len() && #[trigger] l[i].0 == k)
                || (l.len() == max && (max > 0 ==> ranks_before(l[max - 1], (k, m[k])))) by {
                let i = choose|i: int| 0 <= i < full.len() && #[trigger] full[i].0 == k;
                if i < l.len() {
                    assert(l[i] == full[i]);
                } else {
                    assert(l.len() == max);
                    if max > 0 {
                        assert(l[max - 1] == full[max - 1]);
                        assert(ranks_before(full[max - 1], full[i]));
                        assert(full[i].1 == m[k]);
                    }
                }
            }
            assert forall|a: int, b: int| 0 <= a < b < l.len() implies ranks_before(#[trigger] l[a], #[trigger] l[b]) by {
                assert(l[a] == full[a] && l[b] == full[b]);
            }
            assert forall|a: int| 0 <= a < l.len() implies m.contains_key(#[trigger] l[a].0) && m[l[a].0] == l[a].1 by {
                assert(l[a] == full[a]);
            }
        }
        sorted
    }

    /// All shards' tallies added together, as one sorted map.
    fn merge_shards(&self) -> (r: KeyMap<u64>)
        requires
            self.wf(),
        ensures
            r.wf(),
            r.map() == merged(self.shard_maps()),
    {
        let mut acc: KeyMap<u64> = KeyMap::new();
        let mut s: usize = 0;
        proof {
            assert(self.shard_maps().take(0) =~= Seq::<Map<Seq<char>, u64>>::empty());
            assert(acc.map() =~= merged(self.shard_maps().take(0)));
        }
        while s < self.shards.len()
            invariant
                s <= self.shards@.len(),
                self.wf(),
                acc.wf(),
                acc.map() == merged(self.shard_maps().take(s as int)),
            decreases self.shards@.len() - s,
        {
            let shard = &self.shards[s];
            let ghost acc0 = acc.map();
            proof {
                assert(shard.wf());
                shard.lemma_view();
            }
            let len = shard.len();
            let mut j: usize = 0;
            proof {
                assert(acc.map() =~= merge_into(acc0, partial(shard.key_seq(), shard.value_seq(), 0)));
            }
            while j < len
                invariant
                    j <= len,
                    len == shard.key_seq().len(),
                    shard.wf(),
                    crate::keys::strictly_sorted(shard.key_seq()),
                    shard.key_seq().len() == shard.value_seq().len(),
                    acc.wf(),
                    acc.map() == merge_into(acc0, partial(shard.key_seq(), shard.value_seq(), j as int)),
                decreases len - j,
            {
                let k = shard.key_at(j);
                let v = *shard.value_at(j);
                let cur = match acc.get(k.as_str()) {
                    Some(c) => *c,
                    None => 0,
                };
                let nv = if cur <= u64::MAX - v { cur + v } else { u64::MAX };
                let ghost before = acc.map();
                acc.insert(k.clone(), nv);
                proof {
                    lemma_partial_step(acc0, shard.key_seq(), shard.value_seq(), j as int);
                    assert(acc.map() =~= merge_into(acc0, partial(shard.key_seq(), shard.value_seq(), j + 1)));
                }
                j = j + 1;
            }
            proof {
                assert(shard.key_seq().take(len as int) =~= shard.key_seq());
                assert(partial(shard.key_seq(), shard.value_seq(), len as int) =~= shard.map());
                let ms = self.shard_maps();
                assert(ms.take(s + 1).drop_last() =~= ms.take(s as int));
                assert(ms.take(s + 1).last() == shard.map());
            }
            s = s + 1;
        }
        proof {
            assert(self.shard_maps().take(self.shards@.len() as int) =~= self.shard_maps());
        }
        acc
    }
}

/// The first `j` entries of a key/value listing, as a map.
pub open spec fn partial(ks: Seq<Seq<char>>, vs: Seq<u64>, j: int) -> Map<Seq<char>, u64> {
    Map::new(|k: Seq<char>| ks.take(j).contains(k), |k: Seq<char>| vs[ks.index_of(k)])
}

proof fn lemma_partial_step(acc0: Map<Seq<char>, u64>, ks: Seq<Seq<char>>, vs: Seq<u64>, j: int)
    requires
        0 <= j < ks.len(),
        ks.len() == vs.len(),
        crate::keys::strictly_sorted(ks),
    ensures
        merge_into(acc0, partial(ks, vs, j + 1)) == merge_into(acc0, partial(ks, vs, j)).insert(
            ks[j],
            sat_add(count_in(merge_into(acc0, partial(ks, vs, j)), ks[j]), vs[j] as int),
        ),
{
    let p0 = partial(ks, vs, j);
    let p1 = partial(ks, vs, j + 1);
    assert(ks.take(j + 1) =~= ks.take(j).push(ks[j]));
    assert(!ks.take(j).contains(ks[j])) by {
        if ks.take(j).contains(ks[j]) {
            let q = choose|q: int| 0 <= q < j && #[trigger] ks.take(j)[q] == ks[j];
            crate::keys::lemma_sorted_distinct(ks, q, j);
        }
    }
    assert(ks.contains(ks[j]));
    assert forall|q: int| 0 <= q < ks.len() implies ks.index_of(#[trigger] ks[q]) == q by {
        let p = ks.index_of(ks[q]);
        assert(ks.contains(ks[q]));
        if p != q {
            crate::keys::lemma_sorted_distinct(ks, p, q);
        }
    }
    assert forall|k: Seq<char>| #[trigger] p1.contains_key(k) implies p1[k] == vs[ks.index_of(k)] by {}
    assert(ks.take(j + 1)[j] == ks[j]);
    assert(p1.contains_key(ks[j]) && p1[ks[j]] == vs[j]);
    assert(count_in(merge_into(acc0, p0), ks[j]) == count_in(acc0, ks[j]));
    assert forall|k: Seq<char>| #[trigger] p1.contains_key(k) && k != ks[j] implies p0.contains_key(k) by {
        let q = choose|q: int| 0 <= q < j + 1 && #[trigger] ks.take(j + 1)[q] == k;
        assert(q < j);
        assert(ks.take(j)[q] == k);
    }
    assert(merge_into(acc0, p1) =~= merge_into(acc0, p0).insert(ks[j], sat_add(count_in(merge_into(acc0, p0), ks[j]), vs[j] as int)));
}

/// Insert `(k, v)` into the ranked `v`.
fn insert_ranked(s: &mut Vec<(String, u64)>, k: String, v: u64)
    requires
        forall|a: int, b: int| 0 <= a < b < old(s)@.len() ==> ranks_before(#[trigger] listing(old(s)@)[a], #[trigger] listing(old(s)@)[b]),
        forall|a: int| 0 <= a < old(s)@.len() ==> listing(old(s)@)[a].0 != k@,
    ensures
        final(s)@.len() == old(s)@.len() + 1,
        forall|a: int, b: int| 0 <= a < b < final(s)@.len() ==> ranks_before(#[trigger] listing(final(s)@)[a], #[trigger] listing(final(s)@)[b]),
        forall|e: (Seq<char>, u64)| #[trigger] listing(final(s)@).contains(e) <==> (listing(old(s)@).contains(e) || e == (k@, v)),
{
    let ghost old_l = listing(s@);
    let ghost x = (k@, v);
    let mut p: usize = 0;
    while p < s.len() && ranked_before_exec(&s[p], &k, v)
        invariant
            p <= s@.len(),
            listing(s@) == old_l,
            x == (k@, v),
            forall|q: int| 0 <= q < p ==> ranks_before(#[trigger] old_l[q], x),
        decreases s@.len() - p,
    {
        proof {
            assert(old_l[p as int] == (s@[p as int].0@, s@[p as int].1));
        }
        p = p + 1;
    }
    proof {
        if p < old_l.len() {
            assert(old_l[p as int].0 != k@);
            lemma_rank_order(old_l[p as int], x, x);
            assert forall|q: int| p <= q < old_l.len() implies ranks_before(x, #[trigger] old_l[q]) by {
                if q > p {
                    assert(ranks_before(old_l[p as int], old_l[q]));
                    lemma_rank_order(x, old_l[p as int], old_l[q]);
                }
            }
        }
    }
    s.insert(p, (k, v));
    proof {
        let t = listing(s@);
        assert(t =~= old_l.insert(p as int, x));
        assert forall|a: int, b: int| 0 <= a < b < t.len() implies ranks_before(#[trigger] t[a], #[trigger] t[b]) by {
            if b < p {
            } else if b == p {
            } else if a < p {
                lemma_rank_order(old_l[a], x, old_l[b - 1]);
            } else if a == p {
            } else {
            }
        }
        assert forall|e: (Seq<char>, u64)| #[trigger] t.contains(e) <==> (old_l.contains(e) || e == x) by {
            if t.contains(e) {
                let a = choose|a: int| 0 <= a < t.len() && t[a] == e;
                if a < p {
                    assert(old_l[a] == e);
                } else if a > p {
                    assert(old_l[a - 1] == e);
                }
            }
            if old_l.contains(e) {
                let a = choose|a: int| 0 <= a < old_l.len() && old_l[a] == e;
                if a < p {
                    assert(t[a] == e);
                } else {
                    assert(t[a + 1] == e);
                }
            }
            if e == x {
                assert(t[p as int] == x);
            }
        }
    }
}

proof fn lemma_rank_order(a: (Seq<char>, u64), b: (Seq<char>, u64), c: (Seq<char>, u64))
    ensures
        a.0 != b.0 ==> ranks_before(a, b) || ranks_before(b, a),
        ranks_before(a, b) ==> !ranks_before(b, a),
        ranks_before(a, b) && ranks_before(b, c) ==> ranks_before(a, c),
{
    lemma_lt_total(a.0, b.0);
    lemma_lt_asymmetric(a.0, b.0);
    lemma_lt_irreflexive(a.0);
    if ranks_before(a, b) && ranks_before(b, c) && a.1 == b.1 && b.1 == c.1 {
        lemma_lt_transitive(a.0, b.0, c.0);
    }
}

fn ranked_before_exec(e: &(String, u64), k: &String, v: u64) -> (r: bool)
    ensures
        r == ranks_before((e.0@, e.1), (k@, v)),
{
    proof {
        lemma_lt_irreflexive(e.0@);
    }
    if e.1 != v {
        e.1 > v
    } else {
        match key_order(e.0.as_str(), k.as_str()) {
            KeyOrder::Less => true,
            _ => false,
        }
    }
}

/// Folders carried in one live folder-tree update, busiest first.
pub const SCAN_TREE_MAX_FOLDERS: usize = 64;

/// One folder of a live folder-tree update.
#[derive(Debug, Clone)]
pub struct ScanTreeFolder {
    pub path: String,
    pub count: u64,
}

pub open spec fn folder_listing(v: Seq<ScanTreeFolder>) -> Seq<(Seq<char>, u64)> {
    Seq::new(v.len(), |i: int| (v[i].path@, v[i].count))
}

/// The live folder-tree update: the busiest `SCAN_TREE_MAX_FOLDERS` folders.
pub fn scan_tree_folders(tree: &ScanTree) -> (r: Vec<ScanTreeFolder>)
    requires
        tree.wf(),
    ensures
        top_folders(merged(tree.shard_maps()), folder_listing(r@), SCAN_TREE_MAX_FOLDERS),
{
    let snap = tree.snapshot(SCAN_TREE_MAX_FOLDERS);
    let ghost l = listing(snap@);
    let mut out: Vec<ScanTreeFolder> = Vec::new();
    proof {
        assert(folder_listing(out@) =~= l.take(0));
    }
    let mut k: usize = 0;
    while k < snap.len()
        invariant
            k <= snap@.len(),
            l == listing(snap@),
            l.len() == snap@.len(),
            out@.len() == k,
            folder_listing(out@) == l.take(k as int),
        decreases snap@.len() - k,
    {
        let ghost prev = out@;
        let path = snap[k].0.clone();
        let f = ScanTreeFolder { path, count: snap[k].1 };
        proof {
            assert(f.path@ == l[k as int].0);
            assert(f.count == l[k as int].1);
        }
        out.push(f);
        proof {
            assert(out@ == prev.push(f));
            assert forall|i: int| 0 <= i < k + 1 implies #[trigger] folder_listing(out@)[i] == l.take(k + 1)[i] by {
                assert(prev.len() == k);
                assert(out@.len() == k + 1);
                assert(folder_listing(out@)[i] == (out@[i].path@, out@[i].count));
                if i < k {
                    assert(out@[i] == prev[i]);
                    assert(folder_listing(prev)[i] == (prev[i].path@, prev[i].count));
                    assert(folder_listing(prev)[i] == l.take(k as int)[i]);
                } else {
                    assert(out@[i] == f);
                }
            }
            assert(folder_listing(out@) =~= l.take(k + 1));
        }
        k = k + 1;
    }
    proof {
        assert(l.take(l.len() as int) =~= l);
    }
    out
}

} // verus!
