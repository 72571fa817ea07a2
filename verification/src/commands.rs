//! The decisions behind the app's commands, apart from their I/O: which pairs
//! a run covers and with which global defaults, how a job is edited for a
//! copy or a schedule change, and how a cron is checked before it is saved.
use crate::config::JobConfig;
use crate::cron::{cron_error, Cron};
use crate::error::SyncError;
use crate::fmt::{push_str, string_from_chars};
use crate::job::{fanned_pairs, resolves_to, FolderPair, Job, JobAutomation, ResolvedPair};
use crate::keys::{key_order, KeyOrder};
use crate::scheduler::{ScheduleConfig, SchedulePolicy};
use crate::settings::Settings;
use crate::store::same_but_id;
use crate::text::tokens;
use crate::timeutil::clamp_i64;
use vstd::prelude::*;

verus! {

/// `after` is `before` with the global defaults filled into the knobs the
/// pair left on "auto" (`0`): scan threads and mtime granularity.
pub open spec fn with_globals(before: ResolvedPair, after: ResolvedPair, s: Settings) -> bool {
    &&& after.pair_id == before.pair_id
    &&& after.mode == before.mode
    &&& after.direction == before.direction
    &&& after.deletion == before.deletion
    &&& after.config.root_a == before.config.root_a
    &&& after.config.root_b == before.config.root_b
    &&& after.config.mode == before.config.mode
    &&& after.config.ignore == before.config.ignore
    &&& after.config.verify_by_hash == before.config.verify_by_hash
    &&& after.config.big_delete_pct == before.config.big_delete_pct
    &&& after.config.big_delete_abs == before.config.big_delete_abs
    &&& after.config.use_recycle_bin == before.config.use_recycle_bin
    &&& after.config.scan_threads == (if before.config.scan_threads == 0 {
        s.scan_threads
    } else {
        before.config.scan_threads
    })
    &&& after.config.mtime_gran_ns == (if before.config.mtime_gran_ns == 0 {
        clamp_i64((s.mtime_gran_ms as i64) * 1_000_000)
    } else {
        before.config.mtime_gran_ns
    })
}

/// Fold the global settings into each resolved pair where the pair left a
/// knob on "auto": a pair-level value wins, the global default fills the
/// gap, and a value still `0` lets the engine pick.
pub fn apply_global_defaults(resolved: &mut Vec<ResolvedPair>, settings: &Settings)
    ensures
        final(resolved)@.len() == old(resolved)@.len(),
        forall|i: int|
            0 <= i < old(resolved)@.len() ==> with_globals(old(resolved)@[i], #[trigger] final(resolved)@[i], *settings),
{
    let default_threads = settings.scan_threads;
    let default_gran = settings.mtime_gran_ns();
    let mut rest: Vec<ResolvedPair> = Vec::new();
    std::mem::swap(&mut rest, resolved);
    let ghost orig = rest@;
    let mut done: Vec<ResolvedPair> = Vec::new();
    while rest.len() > 0
        invariant
            done@.len() + rest@.len() == orig.len(),
            rest@ == orig.skip(done@.len() as int),
            default_threads == settings.scan_threads,
            default_gran == clamp_i64((settings.mtime_gran_ms as i64) * 1_000_000),
            forall|i: int| 0 <= i < done@.len() ==> with_globals(orig[i], #[trigger] done@[i], *settings),
        decreases rest@.len(),
    {
        let ghost k: int = done@.len() as int;
        let mut r = rest.remove(0);
        proof {
            assert(r == orig[k]);
            assert(rest@ =~= orig.skip(k + 1));
        }
        if r.config.scan_threads == 0 {
            r.config.scan_threads = default_threads;
        }
        if r.config.mtime_gran_ns == 0 {
            r.config.mtime_gran_ns = default_gran;
        }
        done.push(r);
    }
    *resolved = done;
}

/// The pairs of `ps` whose id is among `ids`, in order.
pub open spec fn listed(ps: Seq<FolderPair>, ids: Seq<String>) -> Seq<FolderPair>
    decreases ps.len(),
{
    if ps.len() == 0 {
        Seq::empty()
    } else if exists|j: int| 0 <= j < ids.len() && #[trigger] ids[j]@ == ps.last().id@ {
        listed(ps.drop_last(), ids).push(ps.last())
    } else {
        listed(ps.drop_last(), ids)
    }
}

/// The pairs a run covers: every enabled local pair, or, with a list of
/// ids, only those of them whose id is listed.
pub open spec fn selection(job: Job, pair_ids: Option<Vec<String>>) -> Seq<FolderPair> {
    match pair_ids {
        None => fanned_pairs(job.pairs@),
        Some(ids) => listed(fanned_pairs(job.pairs@), ids@),
    }
}

fn is_listed(ids: &Vec<String>, id: &str) -> (r: bool)
    ensures
        r == exists|j: int| 0 <= j < ids@.len() && #[trigger] ids@[j]@ == id@,
{
    let mut j: usize = 0;
    while j < ids.len()
        invariant
            j <= ids@.len(),
            forall|q: int| 0 <= q < j ==> (#[trigger] ids@[q])@ != id@,
        decreases ids@.len() - j,
    {
        if key_order(ids[j].as_str(), id) == KeyOrder::Equal {
            return true;
        }
        j = j + 1;
    }
    false
}

/// Resolve the enabled pairs of `job`, in job order, optionally narrowed to
/// the listed pair ids.
pub fn select_pairs(job: &Job, pair_ids: &Option<Vec<String>>) -> (r: Vec<ResolvedPair>)
    ensures
        r@.len() == selection(*job, *pair_ids).len(),
        forall|i: int| 0 <= i < r@.len() ==> resolves_to(job.settings, selection(*job, *pair_ids)[i], #[trigger] r@[i]),
{
    let resolved = job.fan_out();
    match pair_ids {
        None => resolved,
        Some(ids) => {
            let ghost fp = fanned_pairs(job.pairs@);
            let mut rest = resolved;
            let ghost orig = rest@;
            proof {
                assert(orig.len() == rest.len());
            }
            let mut out: Vec<ResolvedPair> = Vec::new();
            let mut k: usize = 0;
            while rest.len() > 0
                invariant
                    k + rest@.len() == orig.len(),
                    orig.len() == fp.len(),
                    orig.len() <= usize::MAX,
                    fp == fanned_pairs(job.pairs@),
                    rest@ == orig.skip(k as int),
                    forall|i: int| 0 <= i < orig.len() ==> resolves_to(job.settings, fp[i], #[trigger] orig[i]),
                    out@.len() == listed(fp.take(k as int), ids@).len(),
                    forall|i: int|
                        0 <= i < out@.len() ==> resolves_to(job.settings, listed(fp.take(k as int), ids@)[i], #[trigger] out@[i]),
                decreases rest@.len(),
            {
                let r = rest.remove(0);
                proof {
                    assert(r == orig[k as int]);
                    assert(rest@ =~= orig.skip(k + 1));
                    assert(fp.take(k + 1).drop_last() =~= fp.take(k as int));
                    assert(fp.take(k + 1).last() == fp[k as int]);
                    assert(r.pair_id@ == fp[k as int].id@);
                }
                let ghost prev = listed(fp.take(k as int), ids@);
                if is_listed(ids, r.pair_id.as_str()) {
                    out.push(r);
                    proof {
                        assert forall|i: int| 0 <= i < out@.len() implies resolves_to(
                            job.settings,
                            listed(fp.take(k + 1), ids@)[i],
                            #[trigger] out@[i],
                        ) by {
                            if i < prev.len() {
                                assert(listed(fp.take(k + 1), ids@)[i] == prev[i]);
                            }
                        }
                    }
                }
                k = k + 1;
            }
            proof {
                assert(fp.take(fp.len() as int) =~= fp);
            }
            out
        },
    }
}

/// Check a cron expression before it is saved, so a bad one is refused up
/// front rather than stored as a schedule that never fires.
pub fn validate_cron(expr: &str) -> (r: Result<(), SyncError>)
    ensures
        match cron_error(tokens(expr@)) {
            Some(e) => r matches Err(SyncError::InvalidJob(m)) && m@ == "invalid cron expression: "@ + e,
            None => r is Ok,
        },
{
    match Cron::parse(expr) {
        Ok(_) => Ok(()),
        Err(e) => {
            let mut m: Vec<char> = Vec::new();
            push_str(&mut m, "invalid cron expression: ");
            push_str(&mut m, e.as_str());
            Err(SyncError::InvalidJob(string_from_chars(&m)))
        },
    }
}

/// Edit a loaded job into its copy: blank job and pair ids (saving mints
/// fresh ones, so the copy's baselines never collide with the source's), a
/// blank creation stamp, and " (copy)" after the name.
pub fn prepare_duplicate(job: &mut Job)
    ensures
        final(job).id@ == Seq::<char>::empty(),
        final(job).created_at@ == Seq::<char>::empty(),
        final(job).name@ == old(job).name@ + " (copy)"@,
        final(job).updated_at == old(job).updated_at,
        final(job).color == old(job).color,
        final(job).settings == old(job).settings,
        final(job).automation == old(job).automation,
        final(job).pairs@.len() == old(job).pairs@.len(),
        forall|i: int|
            0 <= i < old(job).pairs@.len() ==> same_but_id(#[trigger] final(job).pairs@[i], old(job).pairs@[i])
                && final(job).pairs@[i].id@ == Seq::<char>::empty(),
{
    job.id = String::new();
    job.created_at = String::new();
    let mut m: Vec<char> = Vec::new();
    push_str(&mut m, job.name.as_str());
    push_str(&mut m, " (copy)");
    job.name = string_from_chars(&m);
    let mut rest: Vec<FolderPair> = Vec::new();
    std::mem::swap(&mut rest, &mut job.pairs);
    let ghost orig = rest@;
    let mut done: Vec<FolderPair> = Vec::new();
    while rest.len() > 0
        invariant
            done@.len() + rest@.len() == orig.len(),
            rest@ == orig.skip(done@.len() as int),
            forall|i: int|
                0 <= i < done@.len() ==> same_but_id(#[trigger] done@[i], orig[i]) && done@[i].id@ == Seq::<char>::empty(),
        decreases rest@.len(),
    {
        let ghost k: int = done@.len() as int;
        let mut p = rest.remove(0);
        proof {
            assert(p == orig[k]);
            assert(rest@ =~= orig.skip(k + 1));
        }
        p.id = String::new();
        done.push(p);
    }
    job.pairs = done;
}

/// Attach or replace a job's schedule; the rest of the job is unchanged.
pub fn attach_schedule(job: &mut Job, schedule: ScheduleConfig)
    ensures
        final(job).automation == Some(JobAutomation { schedule: Some(schedule) }),
        final(job).id == old(job).id,
        final(job).name == old(job).name,
        final(job).pairs == old(job).pairs,
        final(job).settings == old(job).settings,
{
    job.automation = Some(JobAutomation { schedule: Some(schedule) });
}

/// Remove a job's schedule; an automation object left empty is dropped too.
pub fn detach_schedule(job: &mut Job)
    ensures
        final(job).automation is None,
        final(job).id == old(job).id,
        final(job).name == old(job).name,
        final(job).pairs == old(job).pairs,
        final(job).settings == old(job).settings,
{
    match &mut job.automation {
        Some(a) => {
            a.schedule = None;
        },
        None => {},
    }
    let empty = match &job.automation {
        Some(a) => a.schedule.is_none(),
        None => false,
    };
    if empty {
        job.automation = None;
    }
}

/// Pause or resume a job's schedule, keeping its cron; a job without a
/// schedule is refused.
pub fn pause_schedule(job: &mut Job, paused: bool) -> (r: Result<(), SyncError>)
    ensures
        match old(job).automation {
            Some(JobAutomation { schedule: Some(s) }) => r is Ok && final(job).automation == Some(
                JobAutomation { schedule: Some(ScheduleConfig { enabled: !paused, ..s }) },
            ),
            _ => r matches Err(SyncError::InvalidJob(m)) && m@ == "job has no schedule to pause"@
                && final(job).automation == old(job).automation,
        },
        final(job).id == old(job).id,
        final(job).name == old(job).name,
        final(job).pairs == old(job).pairs,
        final(job).settings == old(job).settings,
{
    let found = match &job.automation {
        Some(a) => a.schedule.is_some(),
        None => false,
    };
    if !found {
        return Err(SyncError::InvalidJob(String::from_str("job has no schedule to pause")));
    }
    match &mut job.automation {
        Some(a) => match &mut a.schedule {
            Some(s) => {
                s.enabled = !paused;
            },
            None => {},
        },
        None => {},
    }
    Ok(())
}

/// The schedule a job runs with when fired by hand and it has none: daily at
/// midnight UTC, with the default policy.
pub fn default_schedule() -> (r: ScheduleConfig)
    ensures
        r.enabled,
        r.cron@ == "0 0 * * *"@,
        r.tz_offset_minutes is None,
        r.policy == SchedulePolicy::ApplySafe,
        !r.skip_if_watched,
{
    ScheduleConfig {
        enabled: true,
        cron: String::from_str("0 0 * * *"),
        tz_offset_minutes: None,
        policy: SchedulePolicy::default(),
        skip_if_watched: false,
    }
}

/// How often (in ticker beats) the live folder tree is refreshed: about every
/// 200 ms, and at least every beat.
pub fn tree_every(ticker_ms: u64) -> (r: u64)
    ensures
        r == (if ticker_ms == 0 { 200u64 } else if 200u64 / ticker_ms == 0 { 1u64 } else { 200u64 / ticker_ms }),
        r >= 1,
{
    let t = if ticker_ms == 0 {
        1
    } else {
        ticker_ms
    };
    let q = 200 / t;
    if q == 0 {
        1
    } else {
        q
    }
}

/// What the next beat of a run's pair loop does.
#[derive(Debug, Clone, Copy, PartialEq, Eq, Structural)]
pub enum PairStep {
    /// Scan (and, for an execution, apply) the pair at this position.
    Run(usize),
    /// The loop is over: every pair ran, one failed, or the run was cancelled.
    Finished,
}

/// A run's pair loop: the pairs run one after another, in order; the first
/// failure ends the run, and a cancellation is observed between pairs.
pub struct PairLoop {
    count: usize,
    next: usize,
    failed: bool,
}

impl PairLoop {
    pub closed spec fn count(&self) -> nat {
        self.count as nat
    }

    /// How many pairs have been started.
    pub closed spec fn started(&self) -> nat {
        self.next as nat
    }

    pub closed spec fn has_failed(&self) -> bool {
        self.failed
    }

    pub closed spec fn wf(&self) -> bool {
        self.next <= self.count
    }

    pub fn new(count: usize) -> (r: PairLoop)
        ensures
            r.wf(),
            r.count() == count,
            r.started() == 0,
            !r.has_failed(),
    {
        PairLoop { count, next: 0, failed: false }
    }

    /// The next beat: the next pair in order, unless a pair failed, the run
    /// was cancelled, or every pair ran.
    pub fn step(&mut self, cancelled: bool) -> (s: PairStep)
        requires
            old(self).wf(),
        ensures
            final(self).wf(),
            final(self).count() == old(self).count(),
            final(self).has_failed() == old(self).has_failed(),
            old(self).has_failed() || cancelled || old(self).started() == old(self).count() ==> s == PairStep::Finished
                && final(self).started() == old(self).started(),
            !(old(self).has_failed() || cancelled || old(self).started() == old(self).count()) ==> s == PairStep::Run(
                old(self).started() as usize,
            ) && final(self).started() == old(self).started() + 1,
    {
        if self.failed || cancelled || self.next >= self.count {
            return PairStep::Finished;
        }
        let i = self.next;
        self.next = self.next + 1;
        PairStep::Run(i)
    }

    /// The pair just run failed: the loop ends at the next beat.
    pub fn pair_failed(&mut self)
        ensures
            final(self).has_failed(),
            final(self).count() == old(self).count(),
            final(self).started() == old(self).started(),
            old(self).wf() ==> final(self).wf(),
    {
        self.failed = true;
    }
}

/// What a scheduled firing does.
#[derive(Debug, Clone, Copy, PartialEq, Eq, Structural)]
pub enum ScheduledRun {
    /// Nothing to run: the job has no enabled local pair.
    NoPairs,
    /// Another run holds the slot: this occurrence is skipped, not queued.
    SlotBusy,
    /// Preview every pair; apply nothing.
    PreviewOnly,
    /// Re-scan and apply every pair under the schedule's policy.
    Execute,
}

/// Decide a scheduled firing from the number of selected pairs, whether the
/// run slot was won, and the schedule's policy.
pub fn scheduled_run(pair_count: usize, slot_won: bool, policy: SchedulePolicy) -> (r: ScheduledRun)
    ensures
        r == (if pair_count == 0 {
            ScheduledRun::NoPairs
        } else if !slot_won {
            ScheduledRun::SlotBusy
        } else if policy is PreviewOnly {
            ScheduledRun::PreviewOnly
        } else {
            ScheduledRun::Execute
        }),
{
    if pair_count == 0 {
        ScheduledRun::NoPairs
    } else if !slot_won {
        ScheduledRun::SlotBusy
    } else if policy.is_preview_only() {
        ScheduledRun::PreviewOnly
    } else {
        ScheduledRun::Execute
    }
}

} // verus!
