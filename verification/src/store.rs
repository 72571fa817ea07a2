//! The job store's layout and rules: one directory per job holding its
//! `job.json`, and its pair baselines under `pairs/<pairId>/baseline.json`,
//! so a job and its baselines live and are deleted together. Saving mints
//! missing ids, stamps the timestamps and validates; loading refuses a file
//! whose version or checksum does not match. The reading and writing of
//! files is done by the caller.
use crate::baseline::{blake3_hex, blake3_hex_digest};
use crate::error::SyncError;
use crate::fmt::{decimal, push_decimal, push_str, string_from_chars};
use crate::job::{aggregate_error, blank, validate_job_aggregate, FolderPair, Job};
use crate::keys::{chars_of, key_order, KeyOrder};
use crate::pathutil::{glue, is_sep, keep_pieces, keeps, main_separator, needs_sep, os_path_for, push_segments};
use crate::runs::fresh_ulid;
use crate::text::{is_whitespace, lemma_first_index, split_on};
use vstd::prelude::*;

verus! {

/// On-disk format version of `job.json`.
pub const JOB_VERSION: u32 = 1;

/// `root` joined with the non-empty `/`-segments of `rel` (by the Windows
/// rules when `windows`).
pub open spec fn joined(root: Seq<char>, rel: Seq<char>, windows: bool) -> Seq<char> {
    push_segments(root, keep_pieces(split_on(rel, '/'), false), windows)
}

/// A single path component: non-empty and free of separators.
pub open spec fn plain_component(p: Seq<char>, windows: bool) -> bool {
    p.len() > 0 && forall|k: int| 0 <= k < p.len() ==> !is_sep(#[trigger] p[k], windows)
}

pub struct Store {
    /// The per-app jobs directory (never inside a synced root).
    jobs_dir: String,
    /// Whether paths are laid out by the Windows rules.
    windows: bool,
}

impl Store {
    pub closed spec fn dir(&self) -> Seq<char> {
        self.jobs_dir@
    }

    /// Whether this store lays out its paths by the Windows rules (those of
    /// the platform it was made on).
    pub closed spec fn on_windows(&self) -> bool {
        self.windows
    }

    pub fn new(jobs_dir: String) -> (r: Store)
        ensures
            r.dir() == jobs_dir@,
    {
        let windows = main_separator() == '\\';
        Store { jobs_dir, windows }
    }

    /// `<jobs_dir>/<job_id>`.
    pub fn job_dir(&self, job_id: &str) -> (r: String)
        ensures
            r@ == joined(self.dir(), job_id@, self.on_windows()),
    {
        os_path_for(self.jobs_dir.as_str(), job_id, self.windows)
    }

    /// `<jobs_dir>/<job_id>/job.json`.
    pub fn job_file(&self, job_id: &str) -> (r: String)
        ensures
            r@ == joined(joined(self.dir(), job_id@, self.on_windows()), "job.json"@, self.on_windows()),
    {
        let d = self.job_dir(job_id);
        os_path_for(d.as_str(), "job.json", self.windows)
    }

    /// `<jobs_dir>/<job_id>/pairs/<pair_id>/baseline.json`: keyed by the stable
    /// ids, so editing a pair's roots never orphans its baseline.
    pub fn pair_baseline_path(&self, job_id: &str, pair_id: &str) -> (r: String)
        ensures
            r@ == baseline_path(self.dir(), job_id@, pair_id@, self.on_windows()),
    {
        let d = self.job_dir(job_id);
        let p = os_path_for(d.as_str(), "pairs", self.windows);
        let q = os_path_for(p.as_str(), pair_id, self.windows);
        os_path_for(q.as_str(), "baseline.json", self.windows)
    }
}

/// `<dir>/<job>/pairs/<pair>/baseline.json`.
pub open spec fn baseline_path(dir: Seq<char>, job: Seq<char>, pair: Seq<char>, windows: bool) -> Seq<char> {
    joined(joined(joined(joined(dir, job, windows), "pairs"@, windows), pair, windows), "baseline.json"@, windows)
}

/// Joining a single component appends it after the glue.
proof fn lemma_joined_plain(x: Seq<char>, p: Seq<char>, windows: bool)
    requires
        plain_component(p, windows),
    ensures
        joined(x, p, windows) == x + glue(x, windows) + p,
{
    assert forall|k: int| 0 <= k < p.len() implies #[trigger] p[k] != '/' by {
        assert(!is_sep(p[k], windows));
    }
    lemma_first_index(p, '/', p.len() as int);
    assert(split_on(p, '/') == seq![p]);
    let one = seq![p];
    assert(one.drop_last() =~= Seq::<Seq<char>>::empty());
    assert(keeps(p, false));
    assert(keep_pieces(Seq::<Seq<char>>::empty(), false) == Seq::<Seq<char>>::empty());
    assert(keep_pieces(one, false) =~= one);
    let e = Seq::<Seq<char>>::empty();
    assert(one.drop_last() == e);
    assert(push_segments(x, e, windows) == x);
    assert(joined(x, p, windows) =~= x + glue(x, windows) + p);
}

/// Two different pair ids (single path components) of one job have two
/// different baseline files: a baseline path depends on the store
/// directory, the job id and the pair id, and on nothing else, and tells
/// the pair ids apart.
pub proof fn law_pair_baseline_paths_distinct(
    dir: Seq<char>,
    job: Seq<char>,
    p1: Seq<char>,
    p2: Seq<char>,
    windows: bool,
)
    requires
        plain_component(p1, windows),
        plain_component(p2, windows),
        p1 != p2,
    ensures
        baseline_path(dir, job, p1, windows) != baseline_path(dir, job, p2, windows),
{
    reveal_strlit("pairs");
    reveal_strlit("baseline.json");
    let b = "baseline.json"@;
    let z = joined(dir, job, windows);
    assert(plain_component("pairs"@, windows));
    assert(plain_component(b, windows));
    lemma_joined_plain(z, "pairs"@, windows);
    let x = joined(z, "pairs"@, windows);
    assert(x.len() >= 5);
    lemma_joined_plain(x, p1, windows);
    lemma_joined_plain(x, p2, windows);
    let y1 = joined(x, p1, windows);
    let y2 = joined(x, p2, windows);
    let g = glue(x, windows);
    assert(y1.last() == p1.last());
    assert(y2.last() == p2.last());
    assert(!is_sep(p1[p1.len() - 1], windows));
    assert(!is_sep(p2[p2.len() - 1], windows));
    assert(needs_sep(y1, windows));
    assert(needs_sep(y2, windows));
    lemma_joined_plain(y1, b, windows);
    lemma_joined_plain(y2, b, windows);
    let s = seq![crate::pathutil::main_sep(windows)];
    let r1 = x + g + p1 + s + b;
    let r2 = x + g + p2 + s + b;
    assert(baseline_path(dir, job, p1, windows) == r1);
    assert(baseline_path(dir, job, p2, windows) == r2);
    if r1 == r2 {
        assert(p1.len() == p2.len());
        let lo: int = x.len() as int + g.len() as int;
        assert(r1.subrange(lo, lo + p1.len() as int) =~= p1);
        assert(r2.subrange(lo, lo + p2.len() as int) =~= p2);
    }
}

fn is_blank(s: &str) -> (r: bool)
    ensures
        r == blank(s@),
{
    let c = chars_of(s);
    let mut k: usize = 0;
    while k < c.len()
        invariant
            k <= c@.len(),
            c@ == s@,
            forall|i: int| 0 <= i < k ==> crate::text::is_ws(#[trigger] c@[i]),
        decreases c@.len() - k,
    {
        if !is_whitespace(c[k]) {
            return false;
        }
        k = k + 1;
    }
    true
}

/// A pair with only its id replaced.
pub open spec fn same_but_id(a: FolderPair, b: FolderPair) -> bool {
    &&& a.label == b.label
    &&& a.root_a == b.root_a
    &&& a.root_b == b.root_b
    &&& a.enabled == b.enabled
    &&& a.filter_override == b.filter_override
    &&& a.mode_override == b.mode_override
    &&& a.deletion_override == b.deletion_override
    &&& a.big_delete_override == b.big_delete_override
}

/// A freshly minted id: 26 characters of the ULID alphabet.
pub open spec fn minted(id: Seq<char>) -> bool {
    id.len() == 26 && forall|i: int| 0 <= i < 26 ==> crate::runs::is_ulid_char(#[trigger] id[i])
}

/// What saving does to a job before it is written: a blank job id is minted
/// (and `created_at` stamped `now`), else a blank `created_at` is stamped;
/// `updated_at` is always `now`; every blank pair id is minted. Then the
/// aggregate is validated (after minting, so fresh ids count as distinct
/// only if they are).
pub fn prepare_save(job: &mut Job, now: &str) -> (r: Result<(), SyncError>)
    ensures
        blank(old(job).id@) ==> minted(final(job).id@) && final(job).created_at@ == now@,
        !blank(old(job).id@) ==> final(job).id == old(job).id && final(job).created_at@ == (if blank(
            old(job).created_at@,
        ) {
            now@
        } else {
            old(job).created_at@
        }),
        final(job).updated_at@ == now@,
        final(job).name == old(job).name,
        final(job).color == old(job).color,
        final(job).settings == old(job).settings,
        final(job).automation == old(job).automation,
        final(job).pairs@.len() == old(job).pairs@.len(),
        forall|i: int|
            0 <= i < old(job).pairs@.len() ==> same_but_id(#[trigger] final(job).pairs@[i], old(job).pairs@[i]) && (if blank(
                old(job).pairs@[i].id@,
            ) {
                minted(final(job).pairs@[i].id@)
            } else {
                final(job).pairs@[i].id == old(job).pairs@[i].id
            }),
        match aggregate_error(*final(job)) {
            Some(e) => r matches Err(SyncError::InvalidJob(m)) && m@ == e,
            None => r is Ok,
        },
{
    let stamp = String::from_str(now);
    if is_blank(job.id.as_str()) {
        job.id = fresh_ulid();
        job.created_at = stamp.clone();
    } else if is_blank(job.created_at.as_str()) {
        job.created_at = stamp.clone();
    }
    job.updated_at = stamp;
    let mut rest: Vec<FolderPair> = Vec::new();
    std::mem::swap(&mut rest, &mut job.pairs);
    let ghost orig = rest@;
    let mut done: Vec<FolderPair> = Vec::new();
    while rest.len() > 0
        invariant
            done@.len() + rest@.len() == orig.len(),
            rest@ == orig.skip(done@.len() as int),
            forall|i: int|
                0 <= i < done@.len() ==> same_but_id(#[trigger] done@[i], orig[i]) && (if blank(orig[i].id@) {
                    minted(done@[i].id@)
                } else {
                    done@[i].id == orig[i].id
                }),
        decreases rest@.len(),
    {
        let ghost k: int = done@.len() as int;
        let mut p = rest.remove(0);
        proof {
            assert(p == orig[k]);
            assert(rest@ =~= orig.skip(k + 1));
        }
        if is_blank(p.id.as_str()) {
            p.id = fresh_ulid();
        }
        done.push(p);
    }
    job.pairs = done;
    validate_job_aggregate(job)
}

/// Interpret a decoded `job.json`: a wrong version, or a stored checksum that
/// is not the blake3 digest of the job's canonical JSON, is an error naming
/// the file; the file itself is never rewritten.
pub fn check_job_record(version: u32, checksum: &str, job_json: &[u8], path: &str) -> (r: Result<(), SyncError>)
    ensures
        version != JOB_VERSION ==> (r matches Err(SyncError::Other(m)) && m@ == "unsupported job version "@ + decimal(
            version as nat,
        ) + " at "@ + path@),
        version == JOB_VERSION && checksum@ != blake3_hex(job_json@) ==> (r matches Err(SyncError::Other(m)) && m@
            == "job checksum mismatch at "@ + path@ + " (file is corrupt)"@),
        version == JOB_VERSION && checksum@ == blake3_hex(job_json@) ==> r is Ok,
{
    if version != JOB_VERSION {
        let mut m: Vec<char> = Vec::new();
        push_str(&mut m, "unsupported job version ");
        push_decimal(&mut m, version as u64);
        push_str(&mut m, " at ");
        push_str(&mut m, path);
        return Err(SyncError::Other(string_from_chars(&m)));
    }
    let expected = job_checksum(job_json);
    if key_order(expected.as_str(), checksum) != KeyOrder::Equal {
        let mut m: Vec<char> = Vec::new();
        push_str(&mut m, "job checksum mismatch at ");
        push_str(&mut m, path);
        push_str(&mut m, " (file is corrupt)");
        return Err(SyncError::Other(string_from_chars(&m)));
    }
    Ok(())
}

/// The checksum stored beside a job: blake3 over its canonical JSON.
pub fn job_checksum(job_json: &[u8]) -> (r: String)
    ensures
        r@ == blake3_hex(job_json@),
{
    blake3_hex_digest(job_json)
}

} // verus!
