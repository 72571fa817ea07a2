//! The persisted job aggregate: one job is an ordered list of folder pairs
//! sharing job-level settings, each pair able to override the filter,
//! direction, deletion policy and big-delete guard. The engine never sees a
//! job: each enabled local pair is resolved to the single-pair `JobConfig`
//! it runs, with the five-way direction collapsed into a mode and a root swap.
use crate::config::{same_policy, IgnorePolicy, JobConfig};
use crate::error::SyncError;
use crate::fmt::{push_str, string_from_chars};
use crate::keys::{chars_of, key_order, KeyOrder};
use crate::model::SyncMode;
use crate::pathutil::{keep_pieces, lowercase, nfc, nfc_string, to_lowercase_string};
use crate::scheduler::ScheduleConfig;
use crate::text::{is_whitespace, is_ws, split_on, split_spans};
use crate::timeutil::{clamp_i64, ms_to_ns};
use vstd::prelude::*;

verus! {

/// Compare strategy; `Content` hashes file contents.
#[derive(Debug, Clone, Copy, PartialEq, Eq, Structural)]
pub enum CompareMode {
    TimeAndSize,
    Content,
}

impl Default for CompareMode {
    fn default() -> (r: CompareMode)
        ensures
            r == CompareMode::TimeAndSize,
    {
        CompareMode::TimeAndSize
    }
}

/// The persisted five-way direction.
#[derive(Debug, Clone, Copy, PartialEq, Eq, Structural)]
pub enum SyncDirection {
    TwoWay,
    MirrorAtoB,
    MirrorBtoA,
    UpdateAtoB,
    UpdateBtoA,
}

impl Default for SyncDirection {
    fn default() -> (r: SyncDirection)
        ensures
            r == SyncDirection::TwoWay,
    {
        SyncDirection::TwoWay
    }
}

/// Where deleted or overwritten files go.
#[derive(Debug, Clone, Copy, PartialEq, Eq, Structural)]
pub enum DeletionPolicy {
    RecycleBin,
    Permanent,
}

impl Default for DeletionPolicy {
    fn default() -> (r: DeletionPolicy)
        ensures
            r == DeletionPolicy::RecycleBin,
    {
        DeletionPolicy::RecycleBin
    }
}

/// Big-delete guard: trips at `pct` (parts per million of the members) or at
/// `abs` deletions. `pct >= 1_000_000` disables the fraction arm,
/// `abs == usize::MAX` the count arm.
#[derive(Debug, Clone, Copy, PartialEq, Eq, Structural)]
pub struct BigDeleteGuard {
    pub pct: u64,
    pub abs: usize,
}

impl Default for BigDeleteGuard {
    fn default() -> (r: BigDeleteGuard)
        ensures
            r.pct == 250_000,
            r.abs == 100,
    {
        BigDeleteGuard { pct: 250_000, abs: 100 }
    }
}

/// Job-level defaults; every pair inherits these unless it overrides them.
#[derive(Debug)]
pub struct JobSettings {
    pub compare_mode: CompareMode,
    pub direction: SyncDirection,
    pub deletion: DeletionPolicy,
    pub big_delete: BigDeleteGuard,
    pub filter: IgnorePolicy,
    /// Per-job scan thread count; `None` inherits the global setting.
    pub scan_threads: Option<usize>,
    /// Per-job mtime tolerance in milliseconds; `None` inherits.
    pub mtime_gran_ms: Option<u64>,
}

impl Default for JobSettings {
    fn default() -> (r: JobSettings)
        ensures
            r.compare_mode == CompareMode::TimeAndSize,
            r.direction == SyncDirection::TwoWay,
            r.deletion == DeletionPolicy::RecycleBin,
            r.big_delete == (BigDeleteGuard { pct: 250_000, abs: 100 }),
            r.filter.use_gitignore && r.filter.use_dot_ignore && !r.filter.include_hidden,
            r.filter.custom_globs@.len() == 0,
            r.scan_threads is None,
            r.mtime_gran_ms is None,
    {
        JobSettings {
            compare_mode: CompareMode::default(),
            direction: SyncDirection::default(),
            deletion: DeletionPolicy::default(),
            big_delete: BigDeleteGuard::default(),
            filter: IgnorePolicy::default(),
            scan_threads: None,
            mtime_gran_ms: None,
        }
    }
}

/// A pair endpoint: local today, remote reserved for later.
#[derive(Debug, Clone)]
pub enum EndpointPath {
    Local { path: String },
    Remote { endpoint_id: String, path: String },
}

#[derive(Debug)]
pub struct FolderPair {
    /// Stable ULID; the pair's baseline is keyed by it.
    pub id: String,
    pub label: String,
    pub root_a: EndpointPath,
    pub root_b: EndpointPath,
    pub enabled: bool,
    /// `None` inherits the job's filter.
    pub filter_override: Option<IgnorePolicy>,
    pub mode_override: Option<SyncDirection>,
    pub deletion_override: Option<DeletionPolicy>,
    pub big_delete_override: Option<BigDeleteGuard>,
}

/// What runs a job on its own.
#[derive(Debug, Clone)]
pub struct JobAutomation {
    pub schedule: Option<ScheduleConfig>,
}

#[derive(Debug)]
pub struct Job {
    pub id: String,
    pub name: String,
    pub color: Option<String>,
    pub created_at: String,
    pub updated_at: String,
    pub settings: JobSettings,
    pub pairs: Vec<FolderPair>,
    pub automation: Option<JobAutomation>,
}

/// One pair resolved to what the engine consumes. `direction` and `deletion`
/// ride along for the post-filter; they do not enter reconciliation.
#[derive(Debug)]
pub struct ResolvedPair {
    pub pair_id: String,
    pub config: JobConfig,
    /// The engine mode (equal to `config.mode`).
    pub mode: SyncMode,
    pub direction: SyncDirection,
    pub deletion: DeletionPolicy,
}

pub open spec fn local_of(e: EndpointPath) -> Option<Seq<char>> {
    match e {
        EndpointPath::Local { path } => Some(path@),
        EndpointPath::Remote { .. } => None,
    }
}

/// The engine mode of a direction, and whether its roots are swapped (the
/// engine only implements "A is the source").
pub open spec fn direction_mode(d: SyncDirection) -> (SyncMode, bool) {
    match d {
        SyncDirection::TwoWay => (SyncMode::TwoWay, false),
        SyncDirection::MirrorAtoB => (SyncMode::Mirror, false),
        SyncDirection::MirrorBtoA => (SyncMode::Mirror, true),
        SyncDirection::UpdateAtoB => (SyncMode::Update, false),
        SyncDirection::UpdateBtoA => (SyncMode::Update, true),
    }
}

/// The path of a local endpoint.
pub fn local_path(e: &EndpointPath) -> (r: Option<String>)
    ensures
        match local_of(*e) {
            Some(p) => r matches Some(s) && s@ == p,
            None => r is None,
        },
{
    match e {
        EndpointPath::Local { path } => Some(path.clone()),
        EndpointPath::Remote { .. } => None,
    }
}

/// `pair` resolved against `s`: the config the engine runs for it.
pub open spec fn resolves_to(s: JobSettings, p: FolderPair, rp: ResolvedPair) -> bool {
    let dir = match p.mode_override {
        Some(d) => d,
        None => s.direction,
    };
    let (mode, swap) = direction_mode(dir);
    let a = local_of(p.root_a)->0;
    let b = local_of(p.root_b)->0;
    let deletion = match p.deletion_override {
        Some(d) => d,
        None => s.deletion,
    };
    let guard = match p.big_delete_override {
        Some(g) => g,
        None => s.big_delete,
    };
    let filter = match p.filter_override {
        Some(f) => f,
        None => s.filter,
    };
    &&& rp.pair_id@ == p.id@
    &&& rp.config.root_a@ == (if swap { b } else { a })
    &&& rp.config.root_b@ == (if swap { a } else { b })
    &&& rp.config.mode == mode
    &&& rp.mode == mode
    &&& rp.direction == dir
    &&& rp.deletion == deletion
    &&& same_policy(rp.config.ignore, filter)
    &&& rp.config.verify_by_hash == (s.compare_mode == CompareMode::Content)
    &&& rp.config.big_delete_pct == guard.pct
    &&& rp.config.big_delete_abs == guard.abs
    &&& rp.config.use_recycle_bin == (deletion != DeletionPolicy::Permanent)
    &&& rp.config.scan_threads == (match s.scan_threads {
        Some(n) => n,
        None => 0,
    })
    &&& rp.config.mtime_gran_ns == (match s.mtime_gran_ms {
        Some(ms) => clamp_i64((ms as i64) * 1_000_000),
        None => 0,
    })
}

/// Does a pair resolve at all? Only when both endpoints are local.
pub open spec fn resolvable(p: FolderPair) -> bool {
    local_of(p.root_a) is Some && local_of(p.root_b) is Some
}

/// The enabled, resolvable pairs, in order.
pub open spec fn fanned_pairs(ps: Seq<FolderPair>) -> Seq<FolderPair>
    decreases ps.len(),
{
    if ps.len() == 0 {
        Seq::empty()
    } else if ps.last().enabled && resolvable(ps.last()) {
        fanned_pairs(ps.drop_last()).push(ps.last())
    } else {
        fanned_pairs(ps.drop_last())
    }
}

impl Job {
    /// Resolve a pair to the engine's single-pair config. Remote endpoints do
    /// not resolve (yet).
    pub fn resolve_pair(&self, p: &FolderPair) -> (r: Option<ResolvedPair>)
        ensures
            r is Some <==> resolvable(*p),
            r matches Some(rp) ==> resolves_to(self.settings, *p, rp),
    {
        let s = &self.settings;
        let root_a = match local_path(&p.root_a) {
            Some(x) => x,
            None => {
                return None;
            },
        };
        let root_b = match local_path(&p.root_b) {
            Some(x) => x,
            None => {
                return None;
            },
        };
        let direction = match p.mode_override {
            Some(d) => d,
            None => s.direction,
        };
        let deletion = match p.deletion_override {
            Some(d) => d,
            None => s.deletion,
        };
        let guard = match p.big_delete_override {
            Some(g) => g,
            None => s.big_delete,
        };
        let ignore = match &p.filter_override {
            Some(f) => f.duplicate(),
            None => s.filter.duplicate(),
        };
        let (mode, swap) = match direction {
            SyncDirection::TwoWay => (SyncMode::TwoWay, false),
            SyncDirection::MirrorAtoB => (SyncMode::Mirror, false),
            SyncDirection::MirrorBtoA => (SyncMode::Mirror, true),
            SyncDirection::UpdateAtoB => (SyncMode::Update, false),
            SyncDirection::UpdateBtoA => (SyncMode::Update, true),
        };
        let (ra, rb) = if swap {
            (root_b, root_a)
        } else {
            (root_a, root_b)
        };
        let config = JobConfig {
            root_a: ra,
            root_b: rb,
            mode,
            ignore,
            verify_by_hash: s.compare_mode == CompareMode::Content,
            big_delete_pct: guard.pct,
            big_delete_abs: guard.abs,
            use_recycle_bin: deletion != DeletionPolicy::Permanent,
            scan_threads: match s.scan_threads {
                Some(n) => n,
                None => 0,
            },
            mtime_gran_ns: match s.mtime_gran_ms {
                Some(ms) => ms_to_ns(ms),
                None => 0,
            },
        };
        Some(ResolvedPair { pair_id: p.id.clone(), config, mode, direction, deletion })
    }

    /// Resolve every enabled pair, in order, skipping pairs that do not
    /// resolve.
    pub fn fan_out(&self) -> (r: Vec<ResolvedPair>)
        ensures
            r@.len() == fanned_pairs(self.pairs@).len(),
            forall|i: int| 0 <= i < r@.len() ==> resolves_to(self.settings, fanned_pairs(self.pairs@)[i], #[trigger] r@[i]),
    {
        let mut out: Vec<ResolvedPair> = Vec::new();
        let mut k: usize = 0;
        while k < self.pairs.len()
            invariant
                k <= self.pairs@.len(),
                out@.len() == fanned_pairs(self.pairs@.take(k as int)).len(),
                forall|i: int| 0 <= i < out@.len() ==> resolves_to(self.settings, fanned_pairs(self.pairs@.take(k as int))[i], #[trigger] out@[i]),
            decreases self.pairs@.len() - k,
        {
            let ghost prev = fanned_pairs(self.pairs@.take(k as int));
            proof {
                assert(self.pairs@.take(k + 1).drop_last() =~= self.pairs@.take(k as int));
                assert(self.pairs@.take(k + 1).last() == self.pairs@[k as int]);
            }
            let p = &self.pairs[k];
            if p.enabled {
                match self.resolve_pair(p) {
                    Some(rp) => {
                        out.push(rp);
                        proof {
                            assert forall|i: int| 0 <= i < out@.len() implies resolves_to(self.settings, fanned_pairs(self.pairs@.take(k + 1))[i], #[trigger] out@[i]) by {
                                if i < prev.len() {
                                    assert(fanned_pairs(self.pairs@.take(k + 1))[i] == prev[i]);
                                }
                            }
                        }
                    },
                    None => {},
                }
            }
            k = k + 1;
        }
        proof {
            assert(self.pairs@.take(self.pairs@.len() as int) =~= self.pairs@);
        }
        out
    }
}

// ---------------------------------------------------------------------------
// Structural validation (no filesystem access)
// ---------------------------------------------------------------------------

/// Empty once trimmed: every character is white space.
pub open spec fn blank(s: Seq<char>) -> bool {
    forall|i: int| 0 <= i < s.len() ==> is_ws(#[trigger] s[i])
}

fn is_blank(s: &str) -> (r: bool)
    ensures
        r == blank(s@),
{
    let c = chars_of(s);
    let mut k: usize = 0;
    while k < c.len()
        invariant
            k <= c@.len(),
            c@ == s@,
            forall|i: int| 0 <= i < k ==> is_ws(#[trigger] c@[i]),
        decreases c@.len() - k,
    {
        if !is_whitespace(c[k]) {
            return false;
        }
        k = k + 1;
    }
    true
}

fn same_text(a: &str, b: &str) -> (r: bool)
    ensures
        r == (a@ == b@),
{
    key_order(a, b) == KeyOrder::Equal
}

/// Two pairs (at `i < j`) share a non-empty id.
pub open spec fn has_duplicate_id(ps: Seq<FolderPair>) -> bool {
    exists|i: int, j: int| 0 <= i < j < ps.len() && ps[i].id@.len() > 0 && #[trigger] ps[i].id@ == #[trigger] ps[j].id@
}

/// Why a job is structurally invalid, if it is: a blank name, no pairs, or two
/// pairs sharing a non-empty id.
pub open spec fn aggregate_error(job: Job) -> Option<Seq<char>> {
    if blank(job.name@) {
        Some("job name is required"@)
    } else if job.pairs@.len() == 0 {
        Some("a job needs at least one folder pair"@)
    } else if has_duplicate_id(job.pairs@) {
        Some("duplicate folder-pair id"@)
    } else {
        None
    }
}

fn invalid(msg: &str) -> (r: SyncError)
    ensures
        r matches SyncError::InvalidJob(m) && m@ == msg@,
{
    SyncError::InvalidJob(String::from_str(msg))
}

/// Cross-pair structural validation that one pair's config cannot see. It
/// does not touch the filesystem: a job may be saved while a drive is offline.
pub fn validate_job_aggregate(job: &Job) -> (r: Result<(), SyncError>)
    ensures
        match aggregate_error(*job) {
            Some(e) => r matches Err(SyncError::InvalidJob(m)) && m@ == e,
            None => r is Ok,
        },
{
    if is_blank(job.name.as_str()) {
        return Err(invalid("job name is required"));
    }
    if job.pairs.len() == 0 {
        return Err(invalid("a job needs at least one folder pair"));
    }
    let n = job.pairs.len();
    let mut j: usize = 0;
    while j < n
        invariant
            j <= n,
            n == job.pairs@.len(),
            n > 0,
            !blank(job.name@),
            forall|a: int, b: int| 0 <= a < b < j ==> !(job.pairs@[a].id@.len() > 0 && #[trigger] job.pairs@[a].id@
                == #[trigger] job.pairs@[b].id@),
        decreases n - j,
    {
        let mut i: usize = 0;
        while i < j
            invariant
                i <= j < n,
                n == job.pairs@.len(),
                !blank(job.name@),
                forall|a: int| 0 <= a < i ==> !(job.pairs@[a].id@.len() > 0 && #[trigger] job.pairs@[a].id@
                    == job.pairs@[j as int].id@),
            decreases j - i,
        {
            let pi = job.pairs[i].id.as_str();
            if !pi.is_empty() && same_text(pi, job.pairs[j].id.as_str()) {
                proof {
                    assert(job.pairs@[i as int].id@.len() > 0);
                    assert(has_duplicate_id(job.pairs@));
                }
                return Err(invalid("duplicate folder-pair id"));
            }
            i = i + 1;
        }
        j = j + 1;
    }
    Ok(())
}

/// `s` without its trailing `c`s.
pub open spec fn trim_end(s: Seq<char>, c: char) -> Seq<char>
    decreases s.len(),
{
    if s.len() > 0 && s.last() == c {
        trim_end(s.drop_last(), c)
    } else {
        s
    }
}

/// A root as compared across pairs: NFC, separators unified to `/`, trailing
/// separators dropped (`/` if nothing is left), and on Windows (`windows`),
/// whose file systems ignore case, lower-cased.
pub open spec fn spec_normalize_root(path: Seq<char>, windows: bool) -> Seq<char> {
    let u = nfc(path).map_values(|c: char| if c == '\\' { '/' } else { c });
    let t = trim_end(u, '/');
    let s = if t.len() == 0 { seq!['/'] } else { t };
    if windows {
        lowercase(s)
    } else {
        s
    }
}

pub fn normalize_root(path: &str, windows: bool) -> (r: String)
    ensures
        r@ == spec_normalize_root(path@, windows),
{
    let n = nfc_string(path);
    let c = chars_of(n.as_str());
    let mut u: Vec<char> = Vec::new();
    let mut k: usize = 0;
    while k < c.len()
        invariant
            k <= c@.len(),
            u@ == c@.take(k as int).map_values(|x: char| if x == '\\' { '/' } else { x }),
        decreases c@.len() - k,
    {
        let x = c[k];
        u.push(if x == '\\' { '/' } else { x });
        k = k + 1;
        proof {
            assert(u@ =~= c@.take(k as int).map_values(|x: char| if x == '\\' { '/' } else { x }));
        }
    }
    proof {
        assert(c@.take(c@.len() as int) =~= c@);
    }
    let ghost full = u@;
    proof {
        assert(full == nfc(path@).map_values(|x: char| if x == '\\' { '/' } else { x }));
    }
    while u.len() > 0 && u[u.len() - 1] == '/'
        invariant
            trim_end(full, '/') == trim_end(u@, '/'),
        decreases u@.len(),
    {
        let ghost before = u@;
        u.pop();
        proof {
            assert(u@ =~= before.drop_last());
        }
    }
    proof {
        assert(trim_end(u@, '/') == u@);
    }
    if u.len() == 0 {
        u.push('/');
        proof {
            assert(u@ =~= seq!['/']);
        }
    }
    let s = string_from_chars(&u);
    if windows {
        to_lowercase_string(s.as_str())
    } else {
        s
    }
}

/// The non-empty `/`-separated segments.
pub open spec fn segments(s: Seq<char>) -> Seq<Seq<char>> {
    keep_pieces(split_on(s, '/'), false)
}

/// `parent` is `child`, or its segments are a prefix of the child's (segment
/// boundaries count: `/a/foo` is not under `/a/f`).
pub open spec fn spec_is_ancestor_of(parent: Seq<char>, child: Seq<char>) -> bool {
    parent == child || (segments(parent).len() <= segments(child).len() && segments(child).take(
        segments(parent).len() as int,
    ) == segments(parent))
}

/// The non-empty segments of `s`, as spans.
fn segment_spans(s: &Vec<char>) -> (r: Vec<(usize, usize)>)
    ensures
        r@.len() == segments(s@).len(),
        forall|t: int| #![trigger r@[t]] 0 <= t < r@.len() ==> r@[t].0 <= r@[t].1 <= s@.len() && s@.subrange(
            r@[t].0 as int,
            r@[t].1 as int,
        ) == segments(s@)[t],
{
    let spans = split_spans(s, '/');
    let ghost pieces = split_on(s@, '/');
    let mut out: Vec<(usize, usize)> = Vec::new();
    let mut i: usize = 0;
    while i < spans.len()
        invariant
            i <= spans@.len(),
            spans@.len() == pieces.len(),
            pieces == split_on(s@, '/'),
            forall|t: int| #![trigger spans@[t]] 0 <= t < spans@.len() ==> spans@[t].0 <= spans@[t].1 <= s@.len() && s@.subrange(
                spans@[t].0 as int,
                spans@[t].1 as int,
            ) == pieces[t],
            out@.len() == keep_pieces(pieces.take(i as int), false).len(),
            forall|t: int| #![trigger out@[t]] 0 <= t < out@.len() ==> out@[t].0 <= out@[t].1 <= s@.len() && s@.subrange(
                out@[t].0 as int,
                out@[t].1 as int,
            ) == keep_pieces(pieces.take(i as int), false)[t],
        decreases spans@.len() - i,
    {
        let (lo, hi) = spans[i];
        let ghost prev = keep_pieces(pieces.take(i as int), false);
        proof {
            assert(spans@[i as int] == (lo, hi));
            assert(pieces.take(i + 1).drop_last() =~= pieces.take(i as int));
            assert(pieces.take(i + 1).last() == pieces[i as int]);
        }
        if hi > lo {
            out.push((lo, hi));
            proof {
                assert forall|t: int| #![trigger out@[t]] 0 <= t < out@.len() implies out@[t].0 <= out@[t].1 <= s@.len()
                    && s@.subrange(out@[t].0 as int, out@[t].1 as int) == keep_pieces(pieces.take(i + 1), false)[t] by {
                    if t < prev.len() {
                        assert(keep_pieces(pieces.take(i + 1), false)[t] == prev[t]);
                    }
                }
            }
        }
        i = i + 1;
    }
    proof {
        assert(pieces.take(pieces.len() as int) =~= pieces);
    }
    out
}

fn same_range(s: &Vec<char>, a: (usize, usize), t: &Vec<char>, b: (usize, usize)) -> (r: bool)
    requires
        a.0 <= a.1 <= s@.len(),
        b.0 <= b.1 <= t@.len(),
    ensures
        r == (s@.subrange(a.0 as int, a.1 as int) == t@.subrange(b.0 as int, b.1 as int)),
{
    if a.1 - a.0 != b.1 - b.0 {
        proof {
            assert(s@.subrange(a.0 as int, a.1 as int).len() != t@.subrange(b.0 as int, b.1 as int).len());
        }
        return false;
    }
    let n = a.1 - a.0;
    let mut k: usize = 0;
    while k < n
        invariant
            k <= n,
            n == a.1 - a.0,
            n == b.1 - b.0,
            a.0 <= a.1 <= s@.len(),
            b.0 <= b.1 <= t@.len(),
            forall|m: int| 0 <= m < k ==> #[trigger] s@.subrange(a.0 as int, a.1 as int)[m] == t@.subrange(b.0 as int, b.1 as int)[m],
        decreases n - k,
    {
        if s[a.0 + k] != t[b.0 + k] {
            proof {
                assert(s@.subrange(a.0 as int, a.1 as int)[k as int] != t@.subrange(b.0 as int, b.1 as int)[k as int]);
            }
            return false;
        }
        k = k + 1;
    }
    proof {
        assert(s@.subrange(a.0 as int, a.1 as int) =~= t@.subrange(b.0 as int, b.1 as int));
    }
    true
}

/// Is `parent` a path-component ancestor of `child` (or the same path)?
pub fn is_ancestor_of(parent: &str, child: &str) -> (r: bool)
    ensures
        r == spec_is_ancestor_of(parent@, child@),
{
    if same_text(parent, child) {
        return true;
    }
    let p = chars_of(parent);
    let c = chars_of(child);
    let ps = segment_spans(&p);
    let cs = segment_spans(&c);
    let ghost sp = segments(p@);
    let ghost sc = segments(c@);
    if ps.len() > cs.len() {
        return false;
    }
    let mut k: usize = 0;
    while k < ps.len()
        invariant
            k <= ps@.len() <= cs@.len(),
            parent@ != child@,
            p@ == parent@,
            c@ == child@,
            sp == segments(p@),
            sc == segments(c@),
            ps@.len() == sp.len(),
            cs@.len() == sc.len(),
            forall|t: int| #![trigger ps@[t]] 0 <= t < ps@.len() ==> ps@[t].0 <= ps@[t].1 <= p@.len() && p@.subrange(
                ps@[t].0 as int,
                ps@[t].1 as int,
            ) == sp[t],
            forall|t: int| #![trigger cs@[t]] 0 <= t < cs@.len() ==> cs@[t].0 <= cs@[t].1 <= c@.len() && c@.subrange(
                cs@[t].0 as int,
                cs@[t].1 as int,
            ) == sc[t],
            forall|t: int| 0 <= t < k ==> #[trigger] sp[t] == sc[t],
        decreases ps@.len() - k,
    {
        proof {
            assert(ps@[k as int] == ps@[k as int]);
            assert(cs@[k as int] == cs@[k as int]);
        }
        if !same_range(&p, ps[k], &c, cs[k]) {
            proof {
                assert(sc.take(sp.len() as int)[k as int] != sp[k as int]);
            }
            return false;
        }
        k = k + 1;
    }
    proof {
        assert(sc.take(sp.len() as int) =~= sp);
    }
    true
}

/// The compared roots of one endpoint: a local, non-blank path normalised,
/// beside the path as written.
pub open spec fn endpoint_roots(e: EndpointPath, windows: bool) -> Seq<(Seq<char>, Seq<char>)> {
    match e {
        EndpointPath::Local { path } => if blank(path@) {
            Seq::empty()
        } else {
            seq![(spec_normalize_root(path@, windows), path@)]
        },
        EndpointPath::Remote { .. } => Seq::empty(),
    }
}

/// Every local root of every pair, in order (A before B).
pub open spec fn pair_roots(ps: Seq<FolderPair>, windows: bool) -> Seq<(Seq<char>, Seq<char>)>
    decreases ps.len(),
{
    if ps.len() == 0 {
        Seq::empty()
    } else {
        pair_roots(ps.drop_last(), windows) + endpoint_roots(ps.last().root_a, windows) + endpoint_roots(
            ps.last().root_b,
            windows,
        )
    }
}

/// Why roots `i` and `j` may not both be used, if they may not.
pub open spec fn clash(roots: Seq<(Seq<char>, Seq<char>)>, i: int, j: int) -> Option<Seq<char>> {
    let (a, ad) = roots[i];
    let (b, bd) = roots[j];
    if a == b {
        Some("two folder pairs use the same folder: "@ + ad)
    } else if spec_is_ancestor_of(a, b) || spec_is_ancestor_of(b, a) {
        Some("one folder is nested inside another across pairs: "@ + ad + " / "@ + bd)
    } else {
        None
    }
}

/// The first clash at or after `(i, j)`, pairs taken in order `i < j`.
pub open spec fn first_clash(roots: Seq<(Seq<char>, Seq<char>)>, i: int, j: int) -> Option<Seq<char>>
    decreases roots.len() - i, roots.len() - j,
{
    if i < 0 || j < 0 || i >= roots.len() {
        None
    } else if j >= roots.len() {
        first_clash(roots, i + 1, i + 2)
    } else {
        match clash(roots, i, j) {
            Some(m) => Some(m),
            None => first_clash(roots, i, j + 1),
        }
    }
}

pub open spec fn root_views(v: Seq<(String, String)>) -> Seq<(Seq<char>, Seq<char>)> {
    Seq::new(v.len(), |i: int| (v[i].0@, v[i].1@))
}

fn push_endpoint(out: &mut Vec<(String, String)>, e: &EndpointPath, windows: bool)
    ensures
        root_views(final(out)@) == root_views(old(out)@) + endpoint_roots(*e, windows),
{
    let ghost before = root_views(out@);
    match e {
        EndpointPath::Local { path } => {
            if !is_blank(path.as_str()) {
                let n = normalize_root(path.as_str(), windows);
                out.push((n, path.clone()));
            }
        },
        EndpointPath::Remote { .. } => {},
    }
    proof {
        assert(root_views(out@) =~= before + endpoint_roots(*e, windows));
    }
}

/// No two local roots across the whole job may be the same folder or nested
/// one in the other (compared NFC- and separator-normalised, and
/// case-insensitively on Windows, selected by `windows`): two pairs writing
/// into overlapping trees would race each other's baselines. Blank and remote
/// endpoints are skipped. No filesystem access.
pub fn validate_pair_set(job: &Job, windows: bool) -> (r: Result<(), SyncError>)
    ensures
        match first_clash(pair_roots(job.pairs@, windows), 0, 1) {
            Some(e) => r matches Err(SyncError::InvalidJob(m)) && m@ == e,
            None => r is Ok,
        },
{
    let mut roots: Vec<(String, String)> = Vec::new();
    let mut k: usize = 0;
    while k < job.pairs.len()
        invariant
            k <= job.pairs@.len(),
            root_views(roots@) == pair_roots(job.pairs@.take(k as int), windows),
        decreases job.pairs@.len() - k,
    {
        proof {
            assert(job.pairs@.take(k + 1).drop_last() =~= job.pairs@.take(k as int));
            assert(job.pairs@.take(k + 1).last() == job.pairs@[k as int]);
        }
        push_endpoint(&mut roots, &job.pairs[k].root_a, windows);
        push_endpoint(&mut roots, &job.pairs[k].root_b, windows);
        k = k + 1;
    }
    proof {
        assert(job.pairs@.take(job.pairs@.len() as int) =~= job.pairs@);
    }
    let ghost rv = root_views(roots@);
    let n = roots.len();
    let mut i: usize = 0;
    while i < n
        invariant
            i <= n,
            n == roots@.len(),
            rv == root_views(roots@),
            rv == pair_roots(job.pairs@, windows),
            first_clash(rv, 0, 1) == first_clash(rv, i as int, i + 1),
        decreases n - i,
    {
        let mut j: usize = i + 1;
        while j < n
            invariant
                i < n,
                i + 1 <= j <= n,
                n == roots@.len(),
                rv == root_views(roots@),
                rv == pair_roots(job.pairs@, windows),
                first_clash(rv, 0, 1) == first_clash(rv, i as int, j as int),
            decreases n - j,
        {
            let (a, a_disp) = (&roots[i].0, &roots[i].1);
            let (b, b_disp) = (&roots[j].0, &roots[j].1);
            proof {
                assert(rv[i as int] == (a@, a_disp@));
                assert(rv[j as int] == (b@, b_disp@));
            }
            if same_text(a.as_str(), b.as_str()) {
                let mut m: Vec<char> = Vec::new();
                push_str(&mut m, "two folder pairs use the same folder: ");
                push_str(&mut m, a_disp.as_str());
                return Err(SyncError::InvalidJob(string_from_chars(&m)));
            }
            if is_ancestor_of(a.as_str(), b.as_str()) || is_ancestor_of(b.as_str(), a.as_str()) {
                let mut m: Vec<char> = Vec::new();
                push_str(&mut m, "one folder is nested inside another across pairs: ");
                push_str(&mut m, a_disp.as_str());
                push_str(&mut m, " / ");
                push_str(&mut m, b_disp.as_str());
                return Err(SyncError::InvalidJob(string_from_chars(&m)));
            }
            j = j + 1;
        }
        i = i + 1;
    }
    Ok(())
}

/// Some pair of roots from `(i, j)` on (pairs taken in the order
/// `first_clash` walks them) clashes.
pub open spec fn clash_after(roots: Seq<(Seq<char>, Seq<char>)>, i: int, j: int) -> bool {
    exists|p: int, q: int|
        0 <= p < q < roots.len() && ((p == i && j <= q) || i < p) && #[trigger] clash(roots, p, q) is Some
}

proof fn lemma_first_clash(roots: Seq<(Seq<char>, Seq<char>)>, i: int, j: int)
    requires
        0 <= i < j,
    ensures
        first_clash(roots, i, j) is Some <==> clash_after(roots, i, j),
    decreases roots.len() - i, roots.len() - j,
{
    if i >= roots.len() {
    } else if j >= roots.len() {
        lemma_first_clash(roots, i + 1, i + 2);
        if clash_after(roots, i, j) {
            let (p, q) = choose|p: int, q: int|
                0 <= p < q < roots.len() && ((p == i && j <= q) || i < p) && #[trigger] clash(roots, p, q) is Some;
            assert(clash(roots, p, q) is Some);
            assert(clash_after(roots, i + 1, i + 2));
        }
        if clash_after(roots, i + 1, i + 2) {
            let (p, q) = choose|p: int, q: int|
                0 <= p < q < roots.len() && ((p == i + 1 && i + 2 <= q) || i + 1 < p) && #[trigger] clash(roots, p, q)
                    is Some;
            assert(clash(roots, p, q) is Some);
            assert(clash_after(roots, i, j));
        }
    } else {
        if clash(roots, i, j) is Some {
            assert(clash_after(roots, i, j));
        } else {
            lemma_first_clash(roots, i, j + 1);
            if clash_after(roots, i, j) {
                let (p, q) = choose|p: int, q: int|
                    0 <= p < q < roots.len() && ((p == i && j <= q) || i < p) && #[trigger] clash(roots, p, q) is Some;
                assert(clash(roots, p, q) is Some);
                assert(clash_after(roots, i, j + 1));
            }
            if clash_after(roots, i, j + 1) {
                let (p, q) = choose|p: int, q: int|
                    0 <= p < q < roots.len() && ((p == i && j + 1 <= q) || i < p) && #[trigger] clash(roots, p, q)
                        is Some;
                assert(clash(roots, p, q) is Some);
                assert(clash_after(roots, i, j));
            }
        }
    }
}

/// Validation refuses a job whenever two of its local roots are the same
/// folder or one is nested in the other, whichever of the two is listed
/// first (`validate_pair_set` is `Err` exactly when `first_clash` is
/// `Some`). It refuses only such jobs, so whether a job passes does not
/// depend on the order of its pairs or roots.
pub proof fn law_nested_roots_rejected(ps: Seq<FolderPair>, windows: bool, i: int, j: int)
    requires
        0 <= i < pair_roots(ps, windows).len(),
        0 <= j < pair_roots(ps, windows).len(),
        i != j,
        spec_is_ancestor_of(pair_roots(ps, windows)[i].0, pair_roots(ps, windows)[j].0),
    ensures
        first_clash(pair_roots(ps, windows), 0, 1) is Some,
{
    let roots = pair_roots(ps, windows);
    lemma_first_clash(roots, 0, 1);
    let p = if i < j { i } else { j };
    let q = if i < j { j } else { i };
    assert(clash(roots, p, q) is Some);
    assert(clash_after(roots, 0, 1));
}

/// Validation passes a job exactly when no two of its local roots are the
/// same folder or nested one in the other, in either order.
pub proof fn law_roots_rejected_only_when_nested(ps: Seq<FolderPair>, windows: bool)
    ensures
        first_clash(pair_roots(ps, windows), 0, 1) is Some <==> exists|i: int, j: int|
            0 <= i < pair_roots(ps, windows).len() && 0 <= j < pair_roots(ps, windows).len() && i != j
                && #[trigger] spec_is_ancestor_of(pair_roots(ps, windows)[i].0, pair_roots(ps, windows)[j].0),
{
    let roots = pair_roots(ps, windows);
    lemma_first_clash(roots, 0, 1);
    if first_clash(roots, 0, 1) is Some {
        let (p, q) = choose|p: int, q: int|
            0 <= p < q < roots.len() && ((p == 0 && 1 <= q) || 0 < p) && #[trigger] clash(roots, p, q) is Some;
        assert(clash(roots, p, q) is Some);
        if spec_is_ancestor_of(roots[p].0, roots[q].0) {
            assert(spec_is_ancestor_of(roots[p].0, roots[q].0));
        } else {
            assert(spec_is_ancestor_of(roots[q].0, roots[p].0));
        }
    }
    if exists|i: int, j: int|
        0 <= i < roots.len() && 0 <= j < roots.len() && i != j && #[trigger] spec_is_ancestor_of(roots[i].0, roots[j].0) {
        let (i, j) = choose|i: int, j: int|
            0 <= i < roots.len() && 0 <= j < roots.len() && i != j && #[trigger] spec_is_ancestor_of(roots[i].0, roots[j].0);
        law_nested_roots_rejected(ps, windows, i, j);
    }
}

} // verus!
