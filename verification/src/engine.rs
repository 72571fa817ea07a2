//! The decisions of a preview or execute run that sit around the plan
//! builder: how a loaded baseline is interpreted, whether a job's two roots
//! may be synced, which scan warnings are shown and whether deletions are
//! suppressed, and the big-delete confirmation gate. The caller scans the
//! roots, reads the baseline file and writes the result.
use crate::baseline::{Baseline, LoadOutcome};
use crate::error::SyncError;
use crate::fmt::{push_str, string_from_chars};
use crate::job::spec_is_ancestor_of;
use crate::job::is_ancestor_of;
use crate::keys::{key_order, KeyOrder};
use crate::model::BaselineStatusKind;
use vstd::prelude::*;

verus! {

/// mtime comparison tolerance: 10 ms absorbs serialization jitter without
/// masking a genuine edit.
pub const DEFAULT_GRAN_NS: i64 = 10_000_000;

/// The tolerance a job runs with: its own when set (non-zero), else the
/// engine default.
pub fn effective_gran(job_gran_ns: i64) -> (r: i64)
    ensures
        r == if job_gran_ns == 0 {
            DEFAULT_GRAN_NS
        } else {
            job_gran_ns
        },
{
    if job_gran_ns == 0 {
        DEFAULT_GRAN_NS
    } else {
        job_gran_ns
    }
}

/// A loaded baseline and how far it can be trusted: a missing or corrupt one
/// yields an empty baseline tagged so the plan falls back to the safe union.
pub fn interpret_baseline(o: LoadOutcome) -> (r: (Baseline, BaselineStatusKind))
    requires
        o matches LoadOutcome::Loaded(b) ==> b.wf(),
    ensures
        r.0.wf(),
        match o {
            LoadOutcome::Loaded(b) => r.0.view() == b.view() && r.1 == BaselineStatusKind::Present,
            LoadOutcome::Missing => r.0.view() == Map::<Seq<char>, crate::model::Meta>::empty() && r.1
                == BaselineStatusKind::FirstSync,
            LoadOutcome::Corrupt => r.0.view() == Map::<Seq<char>, crate::model::Meta>::empty() && r.1
                == BaselineStatusKind::Corrupt,
        },
{
    match o {
        LoadOutcome::Loaded(b) => (b, BaselineStatusKind::Present),
        LoadOutcome::Missing => (Baseline::new(), BaselineStatusKind::FirstSync),
        LoadOutcome::Corrupt => (Baseline::new(), BaselineStatusKind::Corrupt),
    }
}

/// Why a job's roots may not be synced, if they may not: a root unset, a root
/// that is not a directory, or the two (canonical) roots the same folder or
/// one nested in the other.
pub open spec fn roots_error(
    root_a: Seq<char>,
    root_b: Seq<char>,
    a_is_dir: bool,
    b_is_dir: bool,
    canon_a: Seq<char>,
    canon_b: Seq<char>,
) -> Option<Seq<char>> {
    if root_a.len() == 0 || root_b.len() == 0 {
        Some("both folders must be set"@)
    } else if !a_is_dir {
        Some("folder A does not exist: "@ + root_a)
    } else if !b_is_dir {
        Some("folder B does not exist: "@ + root_b)
    } else if canon_a == canon_b {
        Some("the two folders are the same"@)
    } else if spec_is_ancestor_of(canon_a, canon_b) || spec_is_ancestor_of(canon_b, canon_a) {
        Some("one folder is inside the other; nested roots are not supported"@)
    } else {
        None
    }
}

/// Check a job's roots, given whether each is a directory and each one's
/// canonical form (the path itself where it cannot be canonicalised).
pub fn validate_roots(
    root_a: &str,
    root_b: &str,
    a_is_dir: bool,
    b_is_dir: bool,
    canon_a: &str,
    canon_b: &str,
) -> (r: Result<(), SyncError>)
    ensures
        match roots_error(root_a@, root_b@, a_is_dir, b_is_dir, canon_a@, canon_b@) {
            Some(e) => r matches Err(SyncError::InvalidJob(m)) && m@ == e,
            None => r is Ok,
        },
{
    if root_a.is_empty() || root_b.is_empty() {
        return Err(invalid_job("both folders must be set"));
    }
    if !a_is_dir {
        let mut m: Vec<char> = Vec::new();
        push_str(&mut m, "folder A does not exist: ");
        push_str(&mut m, root_a);
        return Err(SyncError::InvalidJob(string_from_chars(&m)));
    }
    if !b_is_dir {
        let mut m: Vec<char> = Vec::new();
        push_str(&mut m, "folder B does not exist: ");
        push_str(&mut m, root_b);
        return Err(SyncError::InvalidJob(string_from_chars(&m)));
    }
    if key_order(canon_a, canon_b) == KeyOrder::Equal {
        return Err(invalid_job("the two folders are the same"));
    }
    if is_ancestor_of(canon_a, canon_b) || is_ancestor_of(canon_b, canon_a) {
        return Err(invalid_job("one folder is inside the other; nested roots are not supported"));
    }
    Ok(())
}

fn invalid_job(msg: &str) -> (r: SyncError)
    ensures
        r matches SyncError::InvalidJob(m) && m@ == msg@,
{
    SyncError::InvalidJob(String::from_str(msg))
}

/// How a path is shown in a warning: `(unknown)` for an empty key.
pub open spec fn spec_display_key(k: Seq<char>) -> Seq<char> {
    if k.len() == 0 {
        "(unknown)"@
    } else {
        k
    }
}

pub fn display_key(k: &str) -> (r: &str)
    ensures
        r@ == spec_display_key(k@),
{
    if k.is_empty() {
        "(unknown)"
    } else {
        k
    }
}

/// The banner shown when a scan could not read everything.
pub open spec fn suppression_banner() -> Seq<char> {
    "⚠ Some files or folders could not be read this run (offline drive, permissions, or locks). Deletions are SUPPRESSED until the scan is clean, so unreadable files are never mistaken for deletions."@
}

pub open spec fn problem_lines(prefix: Seq<char>, ps: Seq<(String, String)>) -> Seq<Seq<char>> {
    Seq::new(ps.len(), |i: int| prefix + spec_display_key(ps[i].0@) + " — "@ + ps[i].1@)
}

/// The warnings of a run's two scans, in order: when either scan had read
/// errors, the suppression banner and one line per error (A's, then B's);
/// then one line per skipped entry (A's, then B's).
pub open spec fn spec_scan_warnings(
    a_errors: Seq<(String, String)>,
    b_errors: Seq<(String, String)>,
    a_skipped: Seq<(String, String)>,
    b_skipped: Seq<(String, String)>,
) -> Seq<Seq<char>> {
    let head = if a_errors.len() > 0 || b_errors.len() > 0 {
        seq![suppression_banner()] + problem_lines("A · could not read "@, a_errors) + problem_lines(
            "B · could not read "@,
            b_errors,
        )
    } else {
        Seq::empty()
    };
    head + problem_lines("A: "@, a_skipped) + problem_lines("B: "@, b_skipped)
}

pub open spec fn texts_of(v: Seq<String>) -> Seq<Seq<char>> {
    Seq::new(v.len(), |i: int| v[i]@)
}

fn push_lines(out: &mut Vec<String>, prefix: &str, ps: &Vec<(String, String)>)
    ensures
        texts_of(final(out)@) == texts_of(old(out)@) + problem_lines(prefix@, ps@),
{
    let ghost before = texts_of(out@);
    let mut k: usize = 0;
    while k < ps.len()
        invariant
            k <= ps@.len(),
            texts_of(out@) == before + problem_lines(prefix@, ps@.take(k as int)),
        decreases ps@.len() - k,
    {
        let mut m: Vec<char> = Vec::new();
        push_str(&mut m, prefix);
        push_str(&mut m, display_key(ps[k].0.as_str()));
        push_str(&mut m, " — ");
        push_str(&mut m, ps[k].1.as_str());
        let ghost prev_out = out@;
        let ghost line = prefix@ + spec_display_key(ps@[k as int].0@) + " — "@ + ps@[k as int].1@;
        proof {
            assert(m@ == line);
        }
        out.push(string_from_chars(&m));
        proof {
            assert(texts_of(out@) =~= texts_of(prev_out).push(line));
            assert(problem_lines(prefix@, ps@.take(k + 1)) =~= problem_lines(prefix@, ps@.take(k as int)).push(line));
        }
        k = k + 1;
    }
    proof {
        assert(ps@.take(ps@.len() as int) =~= ps@);
    }
}

/// The warnings of a run's two scans, and whether deletions are suppressed
/// (exactly when either scan had read errors: an unreadable path is unknown,
/// never a deletion).
pub fn scan_warnings(
    a_errors: &Vec<(String, String)>,
    b_errors: &Vec<(String, String)>,
    a_skipped: &Vec<(String, String)>,
    b_skipped: &Vec<(String, String)>,
) -> (r: (Vec<String>, bool))
    ensures
        texts_of(r.0@) == spec_scan_warnings(a_errors@, b_errors@, a_skipped@, b_skipped@),
        r.1 == (a_errors@.len() > 0 || b_errors@.len() > 0),
{
    let scan_error = a_errors.len() > 0 || b_errors.len() > 0;
    let mut w: Vec<String> = Vec::new();
    if scan_error {
        w.push(String::from_str(
            "⚠ Some files or folders could not be read this run (offline drive, permissions, or locks). Deletions are SUPPRESSED until the scan is clean, so unreadable files are never mistaken for deletions.",
        ));
        proof {
            assert(texts_of(w@) =~= seq![suppression_banner()]);
        }
        push_lines(&mut w, "A · could not read ", a_errors);
        push_lines(&mut w, "B · could not read ", b_errors);
    } else {
        proof {
            assert(texts_of(w@) =~= Seq::<Seq<char>>::empty());
        }
    }
    push_lines(&mut w, "A: ", a_skipped);
    push_lines(&mut w, "B: ", b_skipped);
    proof {
        if scan_error {
            assert(texts_of(w@) =~= spec_scan_warnings(a_errors@, b_errors@, a_skipped@, b_skipped@));
        } else {
            assert(texts_of(w@) =~= spec_scan_warnings(a_errors@, b_errors@, a_skipped@, b_skipped@));
        }
    }
    (w, scan_error)
}

/// An execution whose plan tripped the big-delete guard proceeds only with
/// the user's explicit confirmation.
pub fn big_delete_gate(tripped: bool, confirmed: bool) -> (r: Result<(), SyncError>)
    ensures
        tripped && !confirmed ==> (r matches Err(SyncError::InvalidJob(m)) && m@
            == "this sync would delete an unusually large number of files; confirmation required"@),
        !(tripped && !confirmed) ==> r is Ok,
{
    if tripped && !confirmed {
        return Err(invalid_job("this sync would delete an unusually large number of files; confirmation required"));
    }
    Ok(())
}

} // verus!
