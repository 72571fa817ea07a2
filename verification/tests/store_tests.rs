use fast_file_sync::baseline::{Baseline, LoadOutcome, BASELINE_VERSION};
use fast_file_sync::engine::{
    big_delete_gate, display_key, effective_gran, interpret_baseline, scan_warnings,
    validate_roots, DEFAULT_GRAN_NS,
};
use fast_file_sync::entries::EntryMap;
use fast_file_sync::error::SyncError;
use fast_file_sync::job::{EndpointPath, FolderPair, Job, JobSettings};
use fast_file_sync::model::{BaselineStatusKind, EntryKind, Meta};
use fast_file_sync::runlog::{run_log_path, PairRunLog, RunLogBuilder};
use fast_file_sync::store::{check_job_record, job_checksum, prepare_save, JOB_VERSION};

fn meta(size: u64) -> Meta {
    Meta { kind: EntryKind::File, size, mtime_ns: 5, hash: None }
}

fn entries() -> EntryMap {
    let mut m = EntryMap::new();
    m.insert("a.txt".to_string(), meta(1));
    m.insert("dir/b.txt".to_string(), meta(2));
    m
}

#[test]
fn baseline_record_round_trips_when_checksum_matches() {
    let json = br#"{"a.txt":{}}"#;
    let sum = Baseline::checksum_of(json);
    assert_eq!(sum.len(), 64);
    assert_eq!(sum, blake3::hash(json).to_hex().to_string());
    match Baseline::from_record(BASELINE_VERSION, &sum, entries(), json) {
        LoadOutcome::Loaded(b) => {
            assert_eq!(b.get("a.txt").map(|m| m.size), Some(1));
            assert_eq!(b.get("dir/b.txt").map(|m| m.size), Some(2));
            assert!(b.get("c").is_none());
        }
        _ => panic!("a matching record loads"),
    }
}

#[test]
fn tampered_or_foreign_baseline_record_is_corrupt() {
    let json = br#"{"a.txt":{}}"#;
    let sum = Baseline::checksum_of(json);
    assert!(matches!(
        Baseline::from_record(BASELINE_VERSION, &sum, entries(), br#"{"a.txt":{"x":1}}"#),
        LoadOutcome::Corrupt
    ));
    assert!(matches!(
        Baseline::from_record(BASELINE_VERSION + 1, &sum, entries(), json),
        LoadOutcome::Corrupt
    ));
    assert_ne!(Baseline::checksum_of(b"x"), Baseline::checksum_of(b"y"));
}

#[test]
fn untrusted_baselines_fall_back_to_empty() {
    let (b, k) = interpret_baseline(LoadOutcome::Missing);
    assert_eq!(k, BaselineStatusKind::FirstSync);
    assert!(b.get("a.txt").is_none());
    let (_, k) = interpret_baseline(LoadOutcome::Corrupt);
    assert_eq!(k, BaselineStatusKind::Corrupt);
    let mut loaded = Baseline::new();
    loaded.update_entry("k", Some(meta(9)));
    let (b, k) = interpret_baseline(LoadOutcome::Loaded(loaded));
    assert_eq!(k, BaselineStatusKind::Present);
    assert_eq!(b.get("k").map(|m| m.size), Some(9));
}

fn pair(id: &str) -> FolderPair {
    FolderPair {
        id: id.into(),
        label: "l".into(),
        root_a: EndpointPath::Local { path: "/a".into() },
        root_b: EndpointPath::Local { path: "/b".into() },
        enabled: true,
        filter_override: None,
        mode_override: None,
        deletion_override: None,
        big_delete_override: None,
    }
}

fn job(id: &str, pairs: Vec<FolderPair>) -> Job {
    Job {
        id: id.into(),
        name: "demo".into(),
        color: None,
        created_at: String::new(),
        updated_at: String::new(),
        settings: JobSettings::default(),
        pairs,
        automation: None,
    }
}

const ULID_ALPHABET: &str = "0123456789ABCDEFGHJKMNPQRSTVWXYZ";

fn is_ulid(s: &str) -> bool {
    s.chars().count() == 26 && s.chars().all(|c| ULID_ALPHABET.contains(c))
}

#[test]
fn save_mints_ulid_when_id_empty() {
    let mut j = job("", vec![pair("")]);
    j.created_at = String::new();
    let now = "2026-02-03T04:05:06Z";
    assert!(prepare_save(&mut j, now).is_ok());
    assert!(!j.id.is_empty(), "job id minted");
    assert!(!j.pairs[0].id.is_empty(), "pair id minted");
    assert!(!j.created_at.is_empty(), "created_at stamped");
    assert!(!j.updated_at.is_empty(), "updated_at stamped");
    assert!(is_ulid(&j.id));
    assert!(is_ulid(&j.pairs[0].id));
    assert_eq!(j.created_at, now);
    assert_eq!(j.updated_at, now);
    assert_eq!(j.pairs[0].label, "l");

    let mut k = job("", vec![pair(""), pair("keep-me")]);
    assert!(prepare_save(&mut k, now).is_ok());
    assert_eq!(k.pairs[1].id, "keep-me");
}

#[test]
fn prepare_save_keeps_existing_ids_and_stamps() {
    let mut j = job("01JOB", vec![pair("p")]);
    j.created_at = "2020-01-01T00:00:00Z".into();
    assert!(prepare_save(&mut j, "2026-01-01T00:00:00Z").is_ok());
    assert_eq!(j.id, "01JOB");
    assert_eq!(j.created_at, "2020-01-01T00:00:00Z");
    assert_eq!(j.updated_at, "2026-01-01T00:00:00Z");

    let mut bad = job("01JOB", vec![]);
    assert!(matches!(
        prepare_save(&mut bad, "now"),
        Err(SyncError::InvalidJob(_))
    ));
}

#[test]
fn job_record_checks_version_and_checksum() {
    let json = br#"{"id":"x"}"#;
    let sum = job_checksum(json);
    assert!(check_job_record(JOB_VERSION, &sum, json, "/j/job.json").is_ok());
    match check_job_record(7, &sum, json, "/j/job.json") {
        Err(SyncError::Other(m)) => assert_eq!(m, "unsupported job version 7 at /j/job.json"),
        other => panic!("unexpected {:?}", other),
    }
    match check_job_record(JOB_VERSION, "deadbeef", json, "/j/job.json") {
        Err(SyncError::Other(m)) => {
            assert_eq!(m, "job checksum mismatch at /j/job.json (file is corrupt)")
        }
        other => panic!("unexpected {:?}", other),
    }
}

#[test]
fn run_log_builder_collects_pairs() {
    let mut b = RunLogBuilder::new("run-1", "job-1", "execute", "manual", 2);
    b.pair(PairRunLog {
        pair_id: "p1".into(),
        entries_a: 1,
        entries_b: 2,
        errors_a: 0,
        errors_b: 0,
        skipped_a: 0,
        skipped_b: 0,
        scanned: 3,
        threads: 4,
        ms: 5,
        ok: true,
        error: None,
    });
    let log = b.finish(None, false, 42);
    assert_eq!(log.run_id, "run-1");
    assert_eq!(log.job_id, "job-1");
    assert_eq!(log.phase, "execute");
    assert_eq!(log.trigger, "manual");
    assert_eq!(log.pair_count, 2);
    assert_eq!(log.pairs.len(), 1);
    assert!(log.ok);
    assert_eq!(log.ms, 42);
    assert_eq!(log.started.len(), 20);
    assert!(log.ended.ends_with('Z'));

    let b = RunLogBuilder::new("run-2", "job-1", "preview", "schedule", 0);
    let log = b.finish(None, true, 1);
    assert!(!log.ok);
    assert!(log.cancelled);
    let b = RunLogBuilder::new("run-3", "job-1", "preview", "schedule", 0);
    let log = b.finish(Some("boom".into()), false, 1);
    assert!(!log.ok);
    assert_eq!(log.error.as_deref(), Some("boom"));
    assert_eq!(run_log_path("/app"), "/app/runs/run-log.jsonl");
}

#[test]
fn engine_root_checks() {
    let err = |r: Result<(), SyncError>| match r {
        Err(SyncError::InvalidJob(m)) => m,
        other => panic!("unexpected {:?}", other),
    };
    assert_eq!(err(validate_roots("", "/b", true, true, "", "/b")), "both folders must be set");
    assert_eq!(
        err(validate_roots("/a", "/b", false, true, "/a", "/b")),
        "folder A does not exist: /a"
    );
    assert_eq!(
        err(validate_roots("/a", "/b", true, false, "/a", "/b")),
        "folder B does not exist: /b"
    );
    assert_eq!(
        err(validate_roots("/a", "/a/", true, true, "/a", "/a")),
        "the two folders are the same"
    );
    assert_eq!(
        err(validate_roots("/a", "/a/x", true, true, "/a", "/a/x")),
        "one folder is inside the other; nested roots are not supported"
    );
    assert!(validate_roots("/a", "/ab", true, true, "/a", "/ab").is_ok());
}

#[test]
fn engine_helpers() {
    assert_eq!(effective_gran(0), DEFAULT_GRAN_NS);
    assert_eq!(effective_gran(2_000_000_000), 2_000_000_000);
    assert_eq!(display_key(""), "(unknown)");
    assert_eq!(display_key("a/b"), "a/b");
    assert!(big_delete_gate(true, false).is_err());
    assert!(big_delete_gate(true, true).is_ok());
    assert!(big_delete_gate(false, false).is_ok());

    let none: Vec<(String, String)> = vec![];
    let (w, suppressed) = scan_warnings(
        &vec![("x".to_string(), "denied".to_string())],
        &none,
        &none,
        &vec![("".to_string(), "symlink".to_string())],
    );
    assert!(suppressed);
    assert_eq!(w.len(), 3);
    assert!(w[0].contains("SUPPRESSED"));
    assert_eq!(w[1], "A · could not read x — denied");
    assert_eq!(w[2], "B: (unknown) — symlink");
    let (w, suppressed) = scan_warnings(&none, &none, &none, &none);
    assert!(!suppressed);
    assert!(w.is_empty());
}
