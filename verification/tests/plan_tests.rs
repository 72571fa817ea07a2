use fast_file_sync::baseline::Baseline;
use fast_file_sync::config::{IgnorePolicy, JobConfig};
use fast_file_sync::entries::{EntryMap, KeySet};
use fast_file_sync::model::{Action, BaselineStatusKind, ConflictType, EntryKind, Meta, Resolution, SyncMode};
use fast_file_sync::plan::{build_plan, probe_requests, DiskFacts, PlanInputs};

fn file(size: u64, mtime: i64) -> Meta {
    Meta { kind: EntryKind::File, size, mtime_ns: mtime, hash: None }
}

fn cfg(root_a: &str, root_b: &str) -> JobConfig {
    JobConfig {
        root_a: root_a.to_string(),
        root_b: root_b.to_string(),
        mode: SyncMode::TwoWay,
        ignore: IgnorePolicy::default(),
        verify_by_hash: false,
        big_delete_pct: 250_000,
        big_delete_abs: 100,
        use_recycle_bin: true,
        scan_threads: 0,
        mtime_gran_ns: 0,
    }
}

fn mirror_cfg(root_a: &str, root_b: &str) -> JobConfig {
    let mut c = cfg(root_a, root_b);
    c.mode = SyncMode::Mirror;
    c
}

fn inputs_with<'a>(
    cfg: &'a JobConfig,
    a: &'a EntryMap,
    b: &'a EntryMap,
    base: &'a Baseline,
    status: BaselineStatusKind,
    suppress_deletes: bool,
) -> PlanInputs<'a> {
    PlanInputs { cfg, a, b, base, status, gran_ns: 0, warnings: vec![], suppress_deletes }
}

fn empty_inputs<'a>(
    cfg: &'a JobConfig,
    a: &'a EntryMap,
    b: &'a EntryMap,
    base: &'a Baseline,
    status: BaselineStatusKind,
) -> PlanInputs<'a> {
    inputs_with(cfg, a, b, base, status, false)
}

/// What the two roots hold on disk: (path, contents) per side.
struct Disk {
    a: Vec<(&'static str, &'static str)>,
    b: Vec<(&'static str, &'static str)>,
}

impl Disk {
    fn on(side: &[(&'static str, &'static str)], k: &str) -> Option<&'static str> {
        side.iter().find(|(p, _)| *p == k).map(|(_, c)| *c)
    }
}

/// Answer the plan's disk probes from the described roots.
fn facts_for(inp: &PlanInputs, disk: &Disk) -> DiskFacts {
    let req = probe_requests(inp);
    let mut present_a = KeySet::new();
    let mut present_b = KeySet::new();
    let mut identical_files = KeySet::new();
    for k in &req.check_a {
        if Disk::on(&disk.a, k).is_some() {
            present_a.insert(k.clone(), ());
        }
    }
    for k in &req.check_b {
        if Disk::on(&disk.b, k).is_some() {
            present_b.insert(k.clone(), ());
        }
    }
    for k in &req.hash {
        if Disk::on(&disk.a, k).is_some() && Disk::on(&disk.a, k) == Disk::on(&disk.b, k) {
            identical_files.insert(k.clone(), ());
        }
    }
    DiskFacts { present_a, present_b, identical_files }
}

fn plan_for(inp: PlanInputs, disk: &Disk) -> fast_file_sync::model::SyncPlan {
    let facts = facts_for(&inp, disk);
    build_plan(inp, &facts)
}

fn mirror_extra_setup() -> (Disk, EntryMap, EntryMap, Baseline) {
    let mut a = EntryMap::new();
    a.insert("keep.txt".to_string(), file(1, 1));
    let mut b = EntryMap::new();
    b.insert("keep.txt".to_string(), file(1, 1));
    b.insert("extra.txt".to_string(), file(2, 9));
    let disk = Disk { a: vec![("keep.txt", "x")], b: vec![("keep.txt", "x"), ("extra.txt", "yy")] };
    let mut base = Baseline::default();
    base.update_entry("keep.txt", Some(file(1, 1)));
    (disk, a, b, base)
}

#[test]
fn mirror_delete_suppressed_on_first_sync() {
    let (disk, a, b, base) = mirror_extra_setup();
    let cfg = mirror_cfg("/da", "/db");
    let plan = plan_for(inputs_with(&cfg, &a, &b, &base, BaselineStatusKind::FirstSync, false), &disk);
    let it = plan.items.iter().find(|i| i.path == "extra.txt").unwrap();
    assert_eq!(it.action, Action::Noop, "mirror extra-delete must be suppressed on first sync");
    assert_eq!(plan.summary.delete_a + plan.summary.delete_b, 0);
}

#[test]
fn mirror_delete_suppressed_on_corrupt_baseline() {
    let (disk, a, b, base) = mirror_extra_setup();
    let cfg = mirror_cfg("/da", "/db");
    let plan = plan_for(inputs_with(&cfg, &a, &b, &base, BaselineStatusKind::Corrupt, false), &disk);
    let it = plan.items.iter().find(|i| i.path == "extra.txt").unwrap();
    assert_eq!(it.action, Action::Noop, "mirror extra-delete must be suppressed on corrupt baseline");
    assert_eq!(plan.summary.delete_a + plan.summary.delete_b, 0);
}

#[test]
fn mirror_delete_suppressed_on_scan_error() {
    let (disk, a, b, base) = mirror_extra_setup();
    let cfg = mirror_cfg("/da", "/db");
    let plan = plan_for(inputs_with(&cfg, &a, &b, &base, BaselineStatusKind::Present, true), &disk);
    let it = plan.items.iter().find(|i| i.path == "extra.txt").unwrap();
    assert_eq!(it.action, Action::Noop, "mirror extra-delete must be suppressed on scan error");
    assert_eq!(plan.summary.delete_a + plan.summary.delete_b, 0);
}

fn mirror_revert_setup() -> (Disk, EntryMap, EntryMap, Baseline) {
    let mut a = EntryMap::new();
    a.insert("f.txt".to_string(), file(1, 1));
    let mut b = EntryMap::new();
    b.insert("f.txt".to_string(), file(99, 500));
    let disk = Disk { a: vec![("f.txt", "a")], b: vec![("f.txt", "edited-on-b")] };
    let mut base = Baseline::default();
    base.update_entry("f.txt", Some(file(1, 1)));
    (disk, a, b, base)
}

#[test]
fn mirror_revert_overwrite_suppressed_on_first_sync() {
    let (disk, a, b, base) = mirror_revert_setup();
    let cfg = mirror_cfg("/da", "/db");
    let plan = plan_for(inputs_with(&cfg, &a, &b, &base, BaselineStatusKind::FirstSync, false), &disk);
    let it = plan.items.iter().find(|i| i.path == "f.txt").unwrap();
    assert_eq!(it.action, Action::Noop, "mirror revert-overwrite of a B edit must be neutralized on first sync");
}

#[test]
fn mirror_revert_overwrite_suppressed_on_corrupt() {
    let (disk, a, b, base) = mirror_revert_setup();
    let cfg = mirror_cfg("/da", "/db");
    let plan = plan_for(inputs_with(&cfg, &a, &b, &base, BaselineStatusKind::Corrupt, false), &disk);
    let it = plan.items.iter().find(|i| i.path == "f.txt").unwrap();
    assert_eq!(it.action, Action::Noop, "mirror revert-overwrite of a B edit must be neutralized on corrupt baseline");
}

#[test]
fn mirror_revert_overwrite_suppressed_on_scan_error() {
    let (disk, a, b, base) = mirror_revert_setup();
    let cfg = mirror_cfg("/da", "/db");
    let plan = plan_for(inputs_with(&cfg, &a, &b, &base, BaselineStatusKind::Present, true), &disk);
    let it = plan.items.iter().find(|i| i.path == "f.txt").unwrap();
    assert_eq!(it.action, Action::Noop, "mirror revert-overwrite of a B edit must be neutralized on scan error");
}

#[test]
fn mirror_revert_overwrite_happens_when_baseline_trusted() {
    let (disk, a, b, base) = mirror_revert_setup();
    let cfg = mirror_cfg("/da", "/db");
    let plan = plan_for(inputs_with(&cfg, &a, &b, &base, BaselineStatusKind::Present, false), &disk);
    let it = plan.items.iter().find(|i| i.path == "f.txt").unwrap();
    assert_eq!(it.action, Action::CopyAtoB, "trusted Mirror must revert B's edit via CopyAtoB");
}

#[test]
fn mirror_extra_delete_counts_toward_big_delete_guard() {
    let mut c = mirror_cfg("/da", "/db");
    c.big_delete_abs = 3;
    c.big_delete_pct = 1_000_000;
    let a = EntryMap::new();
    let mut b = EntryMap::new();
    let base = Baseline::default();
    let names = ["extra0.txt", "extra1.txt", "extra2.txt", "extra3.txt", "extra4.txt"];
    for k in names {
        b.insert(k.to_string(), file(1, 1));
    }
    let disk = Disk { a: vec![], b: names.iter().map(|k| (*k, "x")).collect() };
    let plan = plan_for(inputs_with(&c, &a, &b, &base, BaselineStatusKind::Present, false), &disk);
    assert_eq!(plan.summary.delete_b, 5, "all five B extras become mirror deletes");
    assert!(plan.big_delete.is_some(), "mirror-induced deletes must count toward the big-delete guard");
}

#[test]
fn mirror_filtered_file_still_on_disk_not_deleted() {
    let cfg = mirror_cfg("/da", "/db");
    let mut a = EntryMap::new();
    a.insert("keep.txt".to_string(), file(1, 1));
    a.insert("f.log".to_string(), file(1, 5));
    let mut b = EntryMap::new();
    b.insert("keep.txt".to_string(), file(1, 1));
    let disk = Disk {
        a: vec![("keep.txt", "x"), ("f.log", "x")],
        b: vec![("f.log", "still here"), ("keep.txt", "x")],
    };
    let mut base = Baseline::default();
    base.update_entry("keep.txt", Some(file(1, 1)));
    base.update_entry("f.log", Some(file(1, 5)));
    let plan = plan_for(inputs_with(&cfg, &a, &b, &base, BaselineStatusKind::Present, false), &disk);
    assert!(plan.items.iter().all(|i| i.path != "f.log"));
    assert_eq!(plan.summary.delete_a + plan.summary.delete_b, 0);
}

#[test]
fn first_sync_never_deletes_and_unions() {
    let cfg = cfg("/da", "/db");
    let mut a = EntryMap::new();
    a.insert("only.txt".to_string(), file(1, 1));
    let b = EntryMap::new();
    let base = Baseline::default();
    let disk = Disk { a: vec![("only.txt", "x")], b: vec![] };
    let plan = plan_for(empty_inputs(&cfg, &a, &b, &base, BaselineStatusKind::FirstSync), &disk);
    let it = plan.items.iter().find(|i| i.path == "only.txt").unwrap();
    assert_eq!(it.action, Action::CopyAtoB);
    assert_eq!(plan.summary.delete_a + plan.summary.delete_b, 0);
}

#[test]
fn deleted_on_a_propagates_to_b_with_baseline() {
    let cfg = cfg("/da", "/db");
    let a = EntryMap::new();
    let mut b = EntryMap::new();
    b.insert("f.txt".to_string(), file(1, 5));
    let mut base = Baseline::default();
    base.update_entry("f.txt", Some(file(1, 5)));
    let disk = Disk { a: vec![], b: vec![("f.txt", "x")] };
    let plan = plan_for(empty_inputs(&cfg, &a, &b, &base, BaselineStatusKind::Present), &disk);
    let it = plan.items.iter().find(|i| i.path == "f.txt").unwrap();
    assert_eq!(it.action, Action::DeleteB);
}

#[test]
fn filtered_file_still_on_disk_is_not_deleted() {
    let cfg = cfg("/da", "/db");
    let a = EntryMap::new();
    let mut b = EntryMap::new();
    b.insert("f.log".to_string(), file(1, 5));
    let mut base = Baseline::default();
    base.update_entry("f.log", Some(file(1, 5)));
    let disk = Disk { a: vec![("f.log", "still here")], b: vec![("f.log", "x")] };
    let plan = plan_for(empty_inputs(&cfg, &a, &b, &base, BaselineStatusKind::Present), &disk);
    assert!(plan.items.iter().all(|i| i.path != "f.log"));
    assert_eq!(plan.summary.delete_a + plan.summary.delete_b, 0);
}

#[test]
fn modify_delete_is_conflict() {
    let cfg = cfg("/da", "/db");
    let a = EntryMap::new();
    let mut b = EntryMap::new();
    b.insert("f.txt".to_string(), file(99, 500));
    let mut base = Baseline::default();
    base.update_entry("f.txt", Some(file(1, 5)));
    let disk = Disk { a: vec![], b: vec![("f.txt", "x")] };
    let plan = plan_for(empty_inputs(&cfg, &a, &b, &base, BaselineStatusKind::Present), &disk);
    let it = plan.items.iter().find(|i| i.path == "f.txt").unwrap();
    assert_eq!(it.action, Action::Conflict);
    assert_eq!(it.conflict, Some(ConflictType::ModifyDelete));
    assert_eq!(it.default_resolution, Some(Resolution::KeepModified));
}

#[test]
fn scan_error_suppresses_deletes() {
    let cfg = cfg("/da", "/db");
    let a = EntryMap::new();
    let mut b = EntryMap::new();
    b.insert("f.txt".to_string(), file(1, 5));
    let mut base = Baseline::default();
    base.update_entry("f.txt", Some(file(1, 5)));
    let disk = Disk { a: vec![], b: vec![("f.txt", "x")] };
    let inp = PlanInputs {
        cfg: &cfg,
        a: &a,
        b: &b,
        base: &base,
        status: BaselineStatusKind::Present,
        gran_ns: 0,
        warnings: vec![],
        suppress_deletes: true,
    };
    let plan = plan_for(inp, &disk);
    let it = plan.items.iter().find(|i| i.path == "f.txt").unwrap();
    assert_eq!(it.action, Action::Noop, "delete must be suppressed on scan error");
    assert_eq!(plan.summary.delete_a + plan.summary.delete_b, 0);
}

// ---- own checks ----

#[test]
fn plan_items_come_out_in_path_order() {
    let cfg = cfg("/da", "/db");
    let mut a = EntryMap::new();
    a.insert("b.txt".to_string(), file(1, 1));
    a.insert("a.txt".to_string(), file(1, 1));
    let mut b = EntryMap::new();
    b.insert("c.txt".to_string(), file(1, 1));
    let base = Baseline::default();
    let disk = Disk { a: vec![("a.txt", "1"), ("b.txt", "1")], b: vec![("c.txt", "1")] };
    let plan = plan_for(empty_inputs(&cfg, &a, &b, &base, BaselineStatusKind::FirstSync), &disk);
    let paths: Vec<&str> = plan.items.iter().map(|i| i.path.as_str()).collect();
    assert_eq!(paths, vec!["a.txt", "b.txt", "c.txt"]);
    assert_eq!(plan.summary.copy_a_to_b, 2);
    assert_eq!(plan.summary.copy_b_to_a, 1);
}

#[test]
fn identical_creations_converge_through_hash_probe() {
    let mut c = cfg("/da", "/db");
    c.verify_by_hash = true;
    let mut a = EntryMap::new();
    a.insert("same.txt".to_string(), file(4, 10));
    let mut b = EntryMap::new();
    b.insert("same.txt".to_string(), file(4, 99));
    let base = Baseline::default();
    let disk = Disk { a: vec![("same.txt", "abcd")], b: vec![("same.txt", "abcd")] };
    let plan = plan_for(empty_inputs(&c, &a, &b, &base, BaselineStatusKind::Present), &disk);
    let it = plan.items.iter().find(|i| i.path == "same.txt").unwrap();
    assert_eq!(it.action, Action::UpdateBaselineOnly);
}

#[test]
fn big_delete_guard_trips_when_every_member_goes() {
    let cfg = cfg("/da", "/db");
    let a = EntryMap::new();
    let mut b = EntryMap::new();
    let mut base = Baseline::default();
    for k in ["x1", "x2", "x3", "x4", "x5", "x6", "x7", "x8"] {
        b.insert(k.to_string(), file(1, 1));
        base.update_entry(k, Some(file(1, 1)));
    }
    b.insert("gone".to_string(), file(1, 1));
    base.update_entry("gone", Some(file(1, 1)));
    let disk = Disk { a: vec![], b: vec![] };
    let plan = plan_for(empty_inputs(&cfg, &a, &b, &base, BaselineStatusKind::Present), &disk);
    // Nine deletions of nine members trips the 25% arm.
    assert_eq!(plan.summary.delete_b, 9);
    let w = plan.big_delete.expect("guard trips at 100%");
    assert_eq!(w.pct_ppm, 1_000_000);
    assert_eq!(w.total_members, 9);
}
