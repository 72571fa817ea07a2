//! Structured run records: one record per finished preview or execute run
//! (success or failure), with every pair's scanned counts, errors, skips,
//! outcome and duration. The caller appends each record as one JSON line to
//! `<app_dir>/runs/run-log.jsonl`, best-effort.
use crate::error::{error_text, SyncError};
use crate::job::ResolvedPair;
use crate::pathutil::{main_separator, os_path_for};
use crate::scan::{resolve_scan_threads, spec_default_threads, MAX_SCAN_THREADS};
use crate::store::joined;
use crate::timeutil::{now_rfc3339, spec_rfc3339};
use vstd::prelude::*;

verus! {

/// One pair's scan and plan (or apply) outcome inside a run.
#[derive(Debug, Clone)]
pub struct PairRunLog {
    pub pair_id: String,
    /// Entries recorded on each side after filtering.
    pub entries_a: usize,
    pub entries_b: usize,
    /// Genuine read failures per side (non-zero suppresses deletions).
    pub errors_a: usize,
    pub errors_b: usize,
    /// Intentionally skipped entries per side.
    pub skipped_a: usize,
    pub skipped_b: usize,
    /// Scanned-counter delta attributed to this pair (both sides).
    pub scanned: u64,
    /// Walker threads used per root.
    pub threads: usize,
    /// Wall-clock milliseconds for this pair.
    pub ms: u128,
    pub ok: bool,
    pub error: Option<String>,
}

/// One whole run.
#[derive(Debug, Clone)]
pub struct RunLog {
    pub run_id: String,
    pub job_id: String,
    /// `"preview"` or `"execute"`.
    pub phase: &'static str,
    pub trigger: String,
    /// RFC3339 UTC.
    pub started: String,
    pub ended: String,
    pub ms: u128,
    pub pair_count: usize,
    pub pairs: Vec<PairRunLog>,
    /// The whole run completed without error and was not cancelled.
    pub ok: bool,
    /// A user cancel interrupted the run.
    pub cancelled: bool,
    pub error: Option<String>,
}

/// Accumulates a run record as the run progresses.
pub struct RunLogBuilder {
    run_id: String,
    job_id: String,
    phase: &'static str,
    trigger: String,
    started_rfc3339: String,
    pair_count: usize,
    pairs: Vec<PairRunLog>,
}

impl RunLogBuilder {
    pub closed spec fn ids(&self) -> (Seq<char>, Seq<char>, Seq<char>, Seq<char>) {
        (self.run_id@, self.job_id@, self.phase@, self.trigger@)
    }

    pub closed spec fn started(&self) -> Seq<char> {
        self.started_rfc3339@
    }

    pub closed spec fn count(&self) -> usize {
        self.pair_count
    }

    pub closed spec fn recorded(&self) -> Seq<PairRunLog> {
        self.pairs@
    }

    /// Start a record, stamped with the current time.
    pub fn new(run_id: &str, job_id: &str, phase: &'static str, trigger: &str, pair_count: usize) -> (r: RunLogBuilder)
        ensures
            r.ids() == (run_id@, job_id@, phase@, trigger@),
            exists|secs: i64| secs >= 0 && r.started() == spec_rfc3339(secs as int),
            r.count() == pair_count,
            r.recorded().len() == 0,
    {
        RunLogBuilder {
            run_id: String::from_str(run_id),
            job_id: String::from_str(job_id),
            phase,
            trigger: String::from_str(trigger),
            started_rfc3339: now_rfc3339(),
            pair_count,
            pairs: Vec::new(),
        }
    }

    /// Record one pair's outcome.
    pub fn pair(&mut self, p: PairRunLog)
        ensures
            final(self).ids() == old(self).ids(),
            final(self).started() == old(self).started(),
            final(self).count() == old(self).count(),
            final(self).recorded() == old(self).recorded().push(p),
    {
        self.pairs.push(p);
    }

    /// Finalise the record: `ok` exactly when there is no error and the run
    /// was not cancelled; the end time is stamped now. `ms` is the run's
    /// measured wall-clock duration.
    pub fn finish(self, error: Option<String>, cancelled: bool, ms: u128) -> (r: RunLog)
        ensures
            (r.run_id@, r.job_id@, r.phase@, r.trigger@) == self.ids(),
            r.started@ == self.started(),
            exists|secs: i64| secs >= 0 && r.ended@ == spec_rfc3339(secs as int),
            r.ms == ms,
            r.pair_count == self.count(),
            r.pairs@ == self.recorded(),
            r.ok == (error is None && !cancelled),
            r.cancelled == cancelled,
            r.error == error,
    {
        let ok = error.is_none() && !cancelled;
        RunLog {
            run_id: self.run_id,
            job_id: self.job_id,
            phase: self.phase,
            trigger: self.trigger,
            started: self.started_rfc3339,
            ended: now_rfc3339(),
            ms,
            pair_count: self.pair_count,
            pairs: self.pairs,
            ok,
            cancelled,
            error,
        }
    }
}

/// The append-only run log under an app directory:
/// `<app_dir>/runs/run-log.jsonl`, joined by the rules of the platform this
/// runs on.
pub fn run_log_path(app_dir: &str) -> (r: String)
    ensures
        r@ == joined(joined(app_dir@, "runs"@, false), "run-log.jsonl"@, false) || r@ == joined(
            joined(app_dir@, "runs"@, true),
            "run-log.jsonl"@,
            true,
        ),
{
    let windows = main_separator() == '\\';
    let d = os_path_for(app_dir, "runs", windows);
    os_path_for(d.as_str(), "run-log.jsonl", windows)
}

/// What one pair's two scans found.
#[derive(Debug, Clone, Copy)]
pub struct ScanStats {
    pub entries_a: usize,
    pub entries_b: usize,
    pub errors_a: usize,
    pub errors_b: usize,
    pub skipped_a: usize,
    pub skipped_b: usize,
}

impl Default for ScanStats {
    /// Nothing scanned (a pair that failed before its scans finished).
    fn default() -> (r: ScanStats)
        ensures
            r == (ScanStats { entries_a: 0, entries_b: 0, errors_a: 0, errors_b: 0, skipped_a: 0, skipped_b: 0 }),
    {
        ScanStats { entries_a: 0, entries_b: 0, errors_a: 0, errors_b: 0, skipped_a: 0, skipped_b: 0 }
    }
}

/// The walker thread count a pair ran with.
pub open spec fn threads_for(requested: usize, cpus: Option<usize>) -> usize {
    if requested == 0 {
        spec_default_threads(cpus)
    } else if requested > MAX_SCAN_THREADS {
        MAX_SCAN_THREADS
    } else {
        requested
    }
}

/// One pair's run-log record from its scan statistics and timing: the live
/// counter's growth since the pair began (`scanned_now - scanned_before`,
/// never below zero), the thread count it ran with (`cpus` is the machine's
/// CPU count), and its error's text when it failed.
pub fn pair_run_log(
    r: &ResolvedPair,
    stats: &ScanStats,
    scanned_now: u64,
    scanned_before: u64,
    ms: u128,
    cpus: Option<usize>,
    err: Option<&SyncError>,
) -> (p: PairRunLog)
    ensures
        p.pair_id@ == r.pair_id@,
        p.entries_a == stats.entries_a,
        p.entries_b == stats.entries_b,
        p.errors_a == stats.errors_a,
        p.errors_b == stats.errors_b,
        p.skipped_a == stats.skipped_a,
        p.skipped_b == stats.skipped_b,
        p.scanned == (if scanned_now >= scanned_before { scanned_now - scanned_before } else { 0 }),
        p.threads == threads_for(r.config.scan_threads, cpus),
        p.ms == ms,
        p.ok == (err is None),
        match err {
            Some(e) => p.error matches Some(m) && m@ == error_text(*e),
            None => p.error is None,
        },
{
    PairRunLog {
        pair_id: r.pair_id.clone(),
        entries_a: stats.entries_a,
        entries_b: stats.entries_b,
        errors_a: stats.errors_a,
        errors_b: stats.errors_b,
        skipped_a: stats.skipped_a,
        skipped_b: stats.skipped_b,
        scanned: if scanned_now >= scanned_before {
            scanned_now - scanned_before
        } else {
            0
        },
        threads: resolve_scan_threads(r.config.scan_threads, cpus),
        ms,
        ok: err.is_none(),
        error: match err {
            Some(e) => Some(e.message()),
            None => None,
        },
    }
}

} // verus!
