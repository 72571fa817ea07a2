use fast_file_sync::commands::{
    apply_global_defaults, attach_schedule, default_schedule, detach_schedule, pause_schedule,
    prepare_duplicate, scheduled_run, select_pairs, tree_every, validate_cron, PairLoop, PairStep,
    ScheduledRun,
};
use fast_file_sync::error::SyncError;
use fast_file_sync::job::{EndpointPath, FolderPair, Job, JobSettings};
use fast_file_sync::runlog::{pair_run_log, ScanStats};
use fast_file_sync::scan::{scan_tree_folders, ScanTree};
use fast_file_sync::scheduler::{next_run_of, schedule_order, ScheduleConfig, SchedulePolicy};
use fast_file_sync::settings::Settings;

fn pair(id: &str) -> FolderPair {
    FolderPair {
        id: id.into(),
        label: String::new(),
        root_a: EndpointPath::Local { path: format!("/a/{id}") },
        root_b: EndpointPath::Local { path: format!("/b/{id}") },
        enabled: true,
        filter_override: None,
        mode_override: None,
        deletion_override: None,
        big_delete_override: None,
    }
}

fn job(pairs: Vec<FolderPair>) -> Job {
    Job {
        id: "01JOB".into(),
        name: "demo".into(),
        color: None,
        created_at: "2026-01-01T00:00:00Z".into(),
        updated_at: "2026-01-01T00:00:00Z".into(),
        settings: JobSettings::default(),
        pairs,
        automation: None,
    }
}

#[test]
fn select_pairs_narrows_to_listed_enabled_pairs() {
    let mut off = pair("p2");
    off.enabled = false;
    let j = job(vec![pair("p1"), off, pair("p3")]);
    let all = select_pairs(&j, &None);
    assert_eq!(all.iter().map(|r| r.pair_id.as_str()).collect::<Vec<_>>(), vec!["p1", "p3"]);
    let some = select_pairs(&j, &Some(vec!["p3".to_string(), "p2".to_string()]));
    assert_eq!(some.iter().map(|r| r.pair_id.as_str()).collect::<Vec<_>>(), vec!["p3"]);
    let none = select_pairs(&j, &Some(vec![]));
    assert!(none.is_empty());
}

#[test]
fn global_defaults_fill_only_auto_knobs() {
    let mut j = job(vec![pair("p1"), pair("p2")]);
    j.settings.scan_threads = Some(6);
    let mut resolved = select_pairs(&j, &None);
    resolved[1].config.mtime_gran_ns = 5;
    let s = Settings { scan_threads: 12, mtime_gran_ms: 3, ..Default::default() };
    apply_global_defaults(&mut resolved, &s);
    assert_eq!(resolved[0].config.scan_threads, 6, "a job value wins");
    assert_eq!(resolved[0].config.mtime_gran_ns, 3_000_000, "the global fills the gap");
    assert_eq!(resolved[1].config.mtime_gran_ns, 5);
    assert_eq!(resolved[1].pair_id, "p2");

    let j = job(vec![pair("p1")]);
    let mut resolved = select_pairs(&j, &None);
    apply_global_defaults(&mut resolved, &Settings::default());
    assert_eq!(resolved[0].config.scan_threads, 0, "still auto");
    assert_eq!(resolved[0].config.mtime_gran_ns, 0);
}

#[test]
fn cron_is_checked_before_saving() {
    assert!(validate_cron("*/15 * * * *").is_ok());
    match validate_cron("* * *") {
        Err(SyncError::InvalidJob(m)) => assert!(m.starts_with("invalid cron expression: cron needs exactly 5 fields")),
        other => panic!("unexpected {:?}", other),
    }
}

#[test]
fn duplicate_blanks_ids_and_marks_the_name() {
    let mut j = job(vec![pair("p1"), pair("p2")]);
    prepare_duplicate(&mut j);
    assert_eq!(j.id, "");
    assert_eq!(j.created_at, "");
    assert_eq!(j.name, "demo (copy)");
    assert!(j.pairs.iter().all(|p| p.id.is_empty()));
    assert_eq!(j.pairs.len(), 2);
}

#[test]
fn schedule_edits() {
    let mut j = job(vec![pair("p1")]);
    assert!(matches!(pause_schedule(&mut j, true), Err(SyncError::InvalidJob(m)) if m == "job has no schedule to pause"));
    attach_schedule(&mut j, default_schedule());
    assert!(j.automation.as_ref().unwrap().schedule.as_ref().unwrap().enabled);
    assert!(pause_schedule(&mut j, true).is_ok());
    let s = j.automation.as_ref().unwrap().schedule.as_ref().unwrap();
    assert!(!s.enabled);
    assert_eq!(s.cron, "0 0 * * *");
    assert_eq!(s.policy, SchedulePolicy::ApplySafe);
    detach_schedule(&mut j);
    assert!(j.automation.is_none());
}

fn sched(cron: &str, enabled: bool) -> ScheduleConfig {
    ScheduleConfig {
        enabled,
        cron: cron.into(),
        tz_offset_minutes: None,
        policy: SchedulePolicy::ApplyAll,
        skip_if_watched: false,
    }
}

#[test]
fn next_run_is_rendered_and_paused_has_none() {
    let now = 1_782_432_000; // 2026-06-26T00:00:00Z
    assert_eq!(next_run_of(&sched("30 2 * * *", true), now).as_deref(), Some("2026-06-26T02:30:00Z"));
    assert_eq!(next_run_of(&sched("30 2 * * *", false), now), None);
    assert_eq!(next_run_of(&sched("nope", true), now), None);
    assert_eq!(next_run_of(&sched("0 0 31 2 *", true), now), None);
}

#[test]
fn schedules_list_soonest_first_unset_last() {
    let next = vec![
        None,
        Some("2026-06-27T00:00:00Z".to_string()),
        Some("2026-06-26T00:00:00Z".to_string()),
        None,
        Some("2026-06-27T00:00:00Z".to_string()),
    ];
    assert_eq!(schedule_order(&next), vec![2, 1, 4, 0, 3]);
    assert!(schedule_order(&vec![]).is_empty());
}

#[test]
fn pair_loop_stops_on_failure_or_cancel() {
    let mut l = PairLoop::new(3);
    assert_eq!(l.step(false), PairStep::Run(0));
    assert_eq!(l.step(false), PairStep::Run(1));
    l.pair_failed();
    assert_eq!(l.step(false), PairStep::Finished);

    let mut l = PairLoop::new(2);
    assert_eq!(l.step(true), PairStep::Finished);
    assert_eq!(l.step(false), PairStep::Run(0));
    assert_eq!(l.step(false), PairStep::Run(1));
    assert_eq!(l.step(false), PairStep::Finished);
}

#[test]
fn scheduled_run_decisions() {
    assert_eq!(scheduled_run(0, true, SchedulePolicy::ApplyAll), ScheduledRun::NoPairs);
    assert_eq!(scheduled_run(2, false, SchedulePolicy::ApplyAll), ScheduledRun::SlotBusy);
    assert_eq!(scheduled_run(2, true, SchedulePolicy::PreviewOnly), ScheduledRun::PreviewOnly);
    assert_eq!(scheduled_run(2, true, SchedulePolicy::ApplySafe), ScheduledRun::Execute);
    assert_eq!(tree_every(120), 1);
    assert_eq!(tree_every(30), 6);
    assert_eq!(tree_every(0), 200);
}

#[test]
fn pair_run_log_records_stats_and_error() {
    let j = job(vec![pair("p1")]);
    let r = &select_pairs(&j, &None)[0];
    let stats = ScanStats { entries_a: 3, entries_b: 4, errors_a: 1, errors_b: 0, skipped_a: 2, skipped_b: 0 };
    let log = pair_run_log(r, &stats, 50, 20, 7, Some(6), None);
    assert_eq!(log.pair_id, "p1");
    assert_eq!((log.entries_a, log.entries_b, log.errors_a, log.skipped_a), (3, 4, 1, 2));
    assert_eq!(log.scanned, 30);
    assert_eq!(log.threads, 6);
    assert!(log.ok);
    assert!(log.error.is_none());
    let e = SyncError::Other("boom".into());
    let log = pair_run_log(r, &ScanStats::default(), 5, 9, 1, None, Some(&e));
    assert_eq!(log.scanned, 0);
    assert_eq!(log.threads, 8);
    assert!(!log.ok);
    assert_eq!(log.error.as_deref(), Some("boom"));
}

#[test]
fn folder_tree_update_lists_busiest() {
    let mut t = ScanTree::new(1);
    t.record("x/1", false);
    t.record("x/2", false);
    t.record("y/1", false);
    let f = scan_tree_folders(&t);
    assert_eq!(f.len(), 2);
    assert_eq!((f[0].path.as_str(), f[0].count), ("x", 2));
    assert_eq!((f[1].path.as_str(), f[1].count), ("y", 1));
}
