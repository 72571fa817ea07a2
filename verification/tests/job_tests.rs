use fast_file_sync::config::IgnorePolicy;
use fast_file_sync::error::SyncError;
use fast_file_sync::job::{
    is_ancestor_of, normalize_root, validate_job_aggregate, validate_pair_set, BigDeleteGuard,
    CompareMode, DeletionPolicy, EndpointPath, FolderPair, Job, JobSettings, SyncDirection,
};
use fast_file_sync::model::SyncMode;

fn local(p: &str) -> EndpointPath {
    EndpointPath::Local { path: p.into() }
}

fn pair(id: &str) -> FolderPair {
    FolderPair {
        id: id.into(),
        label: String::new(),
        root_a: local("/a"),
        root_b: local("/b"),
        enabled: true,
        filter_override: None,
        mode_override: None,
        deletion_override: None,
        big_delete_override: None,
    }
}

fn job_with(pairs: Vec<FolderPair>) -> Job {
    Job {
        id: "01JOBULID00000000000000000".into(),
        name: "demo".into(),
        color: Some("#abc".into()),
        created_at: "2026-01-01T00:00:00Z".into(),
        updated_at: "2026-01-01T00:00:00Z".into(),
        settings: JobSettings::default(),
        pairs,
        automation: None,
    }
}

#[test]
fn pair_to_jobconfig_merges_overrides() {
    let mut job = job_with(vec![pair("01PAIR0000000000000000001A")]);
    job.settings.filter = IgnorePolicy {
        include_hidden: false,
        ..Default::default()
    };
    job.settings.deletion = DeletionPolicy::RecycleBin;

    let mut p = pair("01PAIR0000000000000000002B");
    p.filter_override = Some(IgnorePolicy {
        include_hidden: true,
        ..Default::default()
    });
    p.deletion_override = Some(DeletionPolicy::Permanent);
    job.pairs.push(p);

    let r0 = job.resolve_pair(&job.pairs[0]).unwrap();
    assert!(!r0.config.ignore.include_hidden, "inherits job filter");
    assert!(r0.config.use_recycle_bin, "inherits RecycleBin => recoverable");
    assert_eq!(r0.deletion, DeletionPolicy::RecycleBin);
    assert_eq!(r0.direction, SyncDirection::TwoWay);

    let r1 = job.resolve_pair(&job.pairs[1]).unwrap();
    assert!(r1.config.ignore.include_hidden, "filter_override wins");
    assert!(!r1.config.use_recycle_bin, "Permanent => not recoverable");
    assert_eq!(r1.deletion, DeletionPolicy::Permanent);
}

#[test]
fn content_compare_sets_verify_by_hash() {
    let mut job = job_with(vec![pair("01PAIR0000000000000000001A")]);
    job.settings.compare_mode = CompareMode::Content;
    let r = job.resolve_pair(&job.pairs[0]).unwrap();
    assert!(r.config.verify_by_hash);
}

#[test]
fn fan_out_skips_disabled_and_remote() {
    let mut p_disabled = pair("01PAIR0000000000000000003C");
    p_disabled.enabled = false;
    let mut p_remote = pair("01PAIR0000000000000000004D");
    p_remote.root_b = EndpointPath::Remote {
        endpoint_id: "host".into(),
        path: "/x".into(),
    };

    let job = job_with(vec![
        pair("01PAIR0000000000000000001A"),
        p_disabled,
        p_remote,
    ]);
    let resolved = job.fan_out();
    assert_eq!(resolved.len(), 1, "only the enabled, fully-local pair resolves");
    assert_eq!(resolved[0].pair_id, "01PAIR0000000000000000001A");
}

#[test]
fn validate_rejects_empty_name() {
    let mut job = job_with(vec![pair("01PAIR0000000000000000001A")]);
    job.name = "   ".into();
    assert!(matches!(
        validate_job_aggregate(&job),
        Err(SyncError::InvalidJob(_))
    ));
}

#[test]
fn validate_rejects_zero_pairs() {
    let job = job_with(vec![]);
    assert!(matches!(
        validate_job_aggregate(&job),
        Err(SyncError::InvalidJob(_))
    ));
}

#[test]
fn validate_rejects_duplicate_pair_id() {
    let job = job_with(vec![
        pair("01PAIRDUP00000000000000001"),
        pair("01PAIRDUP00000000000000001"),
    ]);
    assert!(matches!(
        validate_job_aggregate(&job),
        Err(SyncError::InvalidJob(_))
    ));
}

#[test]
fn validate_accepts_valid_job() {
    let job = job_with(vec![pair("01PAIR0000000000000000001A")]);
    assert!(validate_job_aggregate(&job).is_ok());
}

#[test]
fn aggregate_errors_carry_their_messages() {
    let mut job = job_with(vec![pair("x")]);
    job.name = "\t ".into();
    match validate_job_aggregate(&job) {
        Err(SyncError::InvalidJob(m)) => assert_eq!(m, "job name is required"),
        other => panic!("unexpected {:?}", other),
    }
    let job = job_with(vec![]);
    match validate_job_aggregate(&job) {
        Err(SyncError::InvalidJob(m)) => assert_eq!(m, "a job needs at least one folder pair"),
        other => panic!("unexpected {:?}", other),
    }
    let job = job_with(vec![pair("d"), pair("e"), pair("d")]);
    match validate_job_aggregate(&job) {
        Err(SyncError::InvalidJob(m)) => assert_eq!(m, "duplicate folder-pair id"),
        other => panic!("unexpected {:?}", other),
    }
    // Empty ids are not duplicates of each other.
    let job = job_with(vec![pair(""), pair("")]);
    assert!(validate_job_aggregate(&job).is_ok());
}

#[test]
fn direction_collapses_to_mode_and_swap() {
    let mut p = pair("p");
    p.mode_override = Some(SyncDirection::MirrorBtoA);
    let job = job_with(vec![p]);
    let r = job.resolve_pair(&job.pairs[0]).unwrap();
    assert_eq!(r.mode, SyncMode::Mirror);
    assert_eq!(r.config.mode, SyncMode::Mirror);
    assert_eq!(r.config.root_a, "/b");
    assert_eq!(r.config.root_b, "/a");

    let mut p = pair("q");
    p.mode_override = Some(SyncDirection::UpdateAtoB);
    p.big_delete_override = Some(BigDeleteGuard { pct: 500_000, abs: 7 });
    let mut job = job_with(vec![p]);
    job.settings.mtime_gran_ms = Some(2000);
    job.settings.scan_threads = Some(3);
    let r = job.resolve_pair(&job.pairs[0]).unwrap();
    assert_eq!(r.mode, SyncMode::Update);
    assert_eq!(r.config.root_a, "/a");
    assert_eq!(r.config.big_delete_pct, 500_000);
    assert_eq!(r.config.big_delete_abs, 7);
    assert_eq!(r.config.mtime_gran_ns, 2_000_000_000);
    assert_eq!(r.config.scan_threads, 3);
}

#[test]
fn normalize_root_trims_trailing_separators() {
    assert_eq!(normalize_root("/data/photos/", false), "/data/photos");
    assert_eq!(normalize_root("/", false), "/");
    assert_eq!(normalize_root("C:\\Data\\", true), "c:/data");
}

#[test]
fn ancestor_is_segment_wise() {
    assert!(is_ancestor_of("/data", "/data/photos"));
    assert!(!is_ancestor_of("/data", "/database"));
    assert!(is_ancestor_of("/data", "/data"));
    assert!(!is_ancestor_of("/data/photos", "/data"));
}

#[test]
fn pair_set_rejects_nested_and_shared_roots() {
    let mut p1 = pair("one");
    p1.root_a = local("/data");
    p1.root_b = local("/backup");
    let mut p2 = pair("two");
    p2.root_a = local("/data/photos");
    p2.root_b = local("/elsewhere");
    let job = job_with(vec![p1, p2]);
    assert!(matches!(
        validate_pair_set(&job, false),
        Err(SyncError::InvalidJob(_))
    ));

    let mut p1 = pair("one");
    p1.root_a = local("/x");
    p1.root_b = local("/y");
    let mut p2 = pair("two");
    p2.root_a = local("/z");
    p2.root_b = local("/w");
    let job = job_with(vec![p1, p2]);
    assert!(validate_pair_set(&job, false).is_ok());
}
