use fast_file_sync::apply::{
    converge_baseline, copy_precheck, delete_precheck, keep_both_precheck, needs_archive,
    place_step, settle, DeleteStep, KeepBothStep, PlaceStep,
    apply_order, defers_delete, effect_for, record, record_conflict, resolve_conflict, ApplyRun, ApplyStep, Dir,
    Eff, Side, SkipOrFail,
};
use fast_file_sync::baseline::Baseline;
use fast_file_sync::entries::KeyMap;
use fast_file_sync::model::{
    Action, ApplyReport, ChangeKind, ConflictType, EntryKind, ItemStatus, Meta, PlanItem,
    Resolution,
};

fn file(mtime: i64) -> Meta {
    Meta { kind: EntryKind::File, size: 1, mtime_ns: mtime, hash: None }
}

fn item(path: &str, action: Action) -> PlanItem {
    PlanItem {
        path: path.to_string(),
        action,
        conflict: None,
        a_change: ChangeKind::Unchanged,
        b_change: ChangeKind::Unchanged,
        a: Some(file(1)),
        b: Some(file(1)),
        base: None,
        default_resolution: None,
        resolution_options: vec![],
        note: String::new(),
    }
}

fn conflict(path: &str, a_change: ChangeKind, b_change: ChangeKind) -> PlanItem {
    let mut it = item(path, Action::Conflict);
    it.conflict = Some(ConflictType::ModifyDelete);
    it.a_change = a_change;
    it.b_change = b_change;
    it
}

#[test]
fn conflict_resolutions_map_to_effects() {
    let it = conflict("x", ChangeKind::Deleted, ChangeKind::Modified);
    assert_eq!(resolve_conflict(&it, Resolution::Skip), Eff::SkipConflict);
    assert_eq!(resolve_conflict(&it, Resolution::KeepBoth), Eff::KeepBoth);
    assert_eq!(resolve_conflict(&it, Resolution::KeepA), Eff::Copy(Dir::AtoB));
    assert_eq!(resolve_conflict(&it, Resolution::KeepB), Eff::Copy(Dir::BtoA));
    assert_eq!(resolve_conflict(&it, Resolution::KeepModified), Eff::Copy(Dir::BtoA));
    assert_eq!(resolve_conflict(&it, Resolution::PropagateDelete), Eff::Delete(Side::B));
    let mut newer = conflict("y", ChangeKind::Modified, ChangeKind::Modified);
    newer.a = Some(file(5));
    newer.b = Some(file(9));
    assert_eq!(resolve_conflict(&newer, Resolution::KeepNewer), Eff::Copy(Dir::BtoA));
    newer.b = None;
    assert_eq!(resolve_conflict(&newer, Resolution::KeepNewer), Eff::Copy(Dir::AtoB));
}

#[test]
fn effect_prefers_user_choice_then_default_then_skip() {
    let mut it = conflict("c", ChangeKind::Modified, ChangeKind::Deleted);
    let none: KeyMap<Resolution> = KeyMap::new();
    assert_eq!(effect_for(&it, &none), Eff::SkipConflict);
    it.default_resolution = Some(Resolution::KeepModified);
    assert_eq!(effect_for(&it, &none), Eff::Copy(Dir::AtoB));
    let mut chosen: KeyMap<Resolution> = KeyMap::new();
    chosen.insert("c".to_string(), Resolution::PropagateDelete);
    assert_eq!(effect_for(&it, &chosen), Eff::Delete(Side::A));
    assert_eq!(effect_for(&item("d", Action::DeleteB), &none), Eff::Delete(Side::B));
    assert_eq!(effect_for(&item("n", Action::Noop), &none), Eff::Noop);
}

#[test]
fn order_runs_creates_parents_first_and_deletes_children_first() {
    let items = vec![
        item("a/b/c", Action::DeleteB),
        item("a/b", Action::CopyAtoB),
        item("a", Action::CopyAtoB),
        item("a/b", Action::DeleteA),
        item("z", Action::Noop),
    ];
    let effects: Vec<Eff> = items
        .iter()
        .map(|i| effect_for(i, &KeyMap::new()))
        .collect();
    let order = apply_order(&items, &effects);
    assert_eq!(order, vec![2, 1, 4, 0, 3]);
}

#[test]
fn apply_run_visits_each_item_once_with_progress() {
    let mut items = vec![
        item("b", Action::CopyAtoB),
        item("a", Action::UpdateBaselineOnly),
        item("c", Action::DeleteB),
        conflict("d", ChangeKind::Modified, ChangeKind::Modified),
        item("e", Action::Noop),
    ];
    items[3].default_resolution = Some(Resolution::Skip);
    let mut run = ApplyRun::new(&items, &KeyMap::new(), false);
    let mut seen = Vec::new();
    let mut beats = Vec::new();
    loop {
        match run.next(&items, false) {
            ApplyStep::Finished => break,
            ApplyStep::Pass(i) | ApplyStep::Converge(i) | ApplyStep::Conflict(i) => seen.push(i),
            ApplyStep::Work { index, progress, .. } => {
                seen.push(index);
                beats.push((progress.done, progress.total, progress.path, progress.action));
            }
        }
    }
    assert_eq!(seen, vec![1, 0, 3, 4, 2]);
    // Total counts the skipped conflict too; done counts only real work.
    assert_eq!(
        beats,
        vec![
            (1, 3, "b".to_string(), "CopyAtoB".to_string()),
            (2, 3, "c".to_string(), "DeleteB".to_string()),
        ]
    );
    assert!(matches!(run.next(&items, false), ApplyStep::Finished));
}

#[test]
fn apply_run_stops_when_cancelled() {
    let items = vec![item("a", Action::CopyAtoB), item("b", Action::CopyAtoB)];
    let mut run = ApplyRun::new(&items, &KeyMap::new(), false);
    assert!(matches!(run.next(&items, false), ApplyStep::Work { index: 0, .. }));
    assert!(matches!(run.next(&items, true), ApplyStep::Finished));
    // A cancelled beat does not consume the next item.
    assert!(matches!(run.next(&items, false), ApplyStep::Work { index: 1, .. }));
}

#[test]
fn keep_both_progress_is_labelled() {
    let mut it = conflict("k", ChangeKind::Modified, ChangeKind::Modified);
    it.default_resolution = Some(Resolution::KeepBoth);
    let items = vec![it];
    let mut run = ApplyRun::new(&items, &KeyMap::new(), false);
    match run.next(&items, false) {
        ApplyStep::Work { effect, progress, .. } => {
            assert_eq!(effect, Eff::KeepBoth);
            assert_eq!(progress.action, "KeepBoth");
        }
        other => panic!("unexpected {:?}", other),
    }
}

#[test]
fn unattended_runs_leave_conflicts_and_safe_runs_hold_deletes() {
    let mut it = conflict("k", ChangeKind::Modified, ChangeKind::Modified);
    it.default_resolution = Some(Resolution::KeepA);
    let items = vec![it];
    let mut run = ApplyRun::new(&items, &KeyMap::new(), true);
    assert!(matches!(run.next(&items, false), ApplyStep::Conflict(0)));
    assert!(defers_delete(false, Eff::Delete(Side::A)));
    assert!(!defers_delete(true, Eff::Delete(Side::A)));
    assert!(!defers_delete(false, Eff::Copy(Dir::AtoB)));
}

#[test]
fn report_counts_each_outcome() {
    let mut r = ApplyReport::empty();
    let it = item("p", Action::CopyAtoB);
    record(&mut r, &it, Ok(10));
    record(&mut r, &it, Err(SkipOrFail::Skip("drift".into())));
    record(&mut r, &it, Err(SkipOrFail::Fail("boom".into())));
    record_conflict(&mut r, &it);
    assert_eq!((r.done, r.skipped, r.failed, r.conflicts, r.bytes_copied), (1, 1, 1, 1, 10));
    assert_eq!(r.outcomes.len(), 4);
    assert_eq!(r.outcomes[1].status, ItemStatus::Skipped);
    assert_eq!(r.outcomes[1].error.as_deref(), Some("drift"));
    assert_eq!(r.outcomes[2].status, ItemStatus::Failed);
    assert_eq!(r.outcomes[3].status, ItemStatus::Conflict);
}

fn dir() -> Meta {
    Meta { kind: EntryKind::Dir, size: 0, mtime_ns: 0, hash: None }
}

fn sized(size: u64, mtime: i64) -> Meta {
    Meta { kind: EntryKind::File, size, mtime_ns: mtime, hash: None }
}

#[test]
fn copy_precheck_skips_drift_and_fails_unrepresentable() {
    let mut it = item("a.txt", Action::CopyAtoB);
    it.a = Some(sized(3, 100));
    it.b = None;
    // Live state as planned: a file copy.
    assert!(matches!(copy_precheck(&it, Dir::AtoB, false, Some(&sized(3, 100)), None, 0), Ok(false)));
    // Source edited since the preview.
    match copy_precheck(&it, Dir::AtoB, false, Some(&sized(4, 100)), None, 0) {
        Err(SkipOrFail::Skip(m)) => assert_eq!(m, "source changed since preview"),
        other => panic!("unexpected {:?}", other),
    }
    // Destination appeared since the preview.
    match copy_precheck(&it, Dir::AtoB, false, Some(&sized(3, 100)), Some(&sized(1, 1)), 0) {
        Err(SkipOrFail::Skip(m)) => assert_eq!(m, "destination changed since preview"),
        other => panic!("unexpected {:?}", other),
    }
    // No source version at all.
    match copy_precheck(&it, Dir::BtoA, false, None, None, 0) {
        Err(SkipOrFail::Skip(m)) => assert_eq!(m, "source vanished"),
        other => panic!("unexpected {:?}", other),
    }
    // A name Windows cannot hold.
    let mut bad = item("CON", Action::CopyAtoB);
    bad.b = None;
    assert!(matches!(copy_precheck(&bad, Dir::AtoB, true, Some(&file(1)), None, 0), Err(SkipOrFail::Fail(_))));
    // A directory source is reported as such.
    let mut d = item("d", Action::CopyAtoB);
    d.a = Some(dir());
    d.b = None;
    assert!(matches!(copy_precheck(&d, Dir::AtoB, false, Some(&dir()), None, 0), Ok(true)));
}

#[test]
fn overwritten_differing_destination_is_archived_identical_is_not() {
    let src = sized(3, 100);
    assert!(needs_archive(Some(&sized(5, 7)), &src, 0), "a differing file is archived first");
    assert!(!needs_archive(Some(&sized(3, 100)), &src, 0), "an identical file is not");
    assert!(!needs_archive(None, &src, 0));
    assert!(!needs_archive(Some(&dir()), &src, 0));
}

#[test]
fn delete_precheck_steps() {
    let mut it = item("x", Action::DeleteB);
    it.b = Some(sized(2, 9));
    assert!(matches!(delete_precheck(&it, Side::B, Some(&sized(2, 9)), 0), DeleteStep::RecycleFile));
    match delete_precheck(&it, Side::B, Some(&sized(3, 9)), 0) {
        DeleteStep::Skip(m) => assert_eq!(m, "target changed since preview"),
        other => panic!("unexpected {:?}", other),
    }
    it.b = Some(dir());
    assert!(matches!(delete_precheck(&it, Side::B, Some(&dir()), 0), DeleteStep::RemoveDir));
    it.b = None;
    assert!(matches!(delete_precheck(&it, Side::B, None, 0), DeleteStep::AlreadyGone));
}

#[test]
fn keep_both_preserves_b_under_a_conflict_name() {
    let mut it = conflict("docs/r.txt", ChangeKind::Modified, ChangeKind::Modified);
    it.a = Some(sized(1, 1));
    it.b = Some(sized(2, 2));
    match keep_both_precheck(&it, false, Some(&sized(1, 1)), Some(&sized(2, 2)), 0, 42) {
        Ok(KeepBothStep::Both { preserve_b_as: Some(p) }) => {
            assert_eq!(p, "docs/r.sync-conflict-42-B.txt")
        }
        other => panic!("unexpected {:?}", other),
    }
    match keep_both_precheck(&it, false, Some(&sized(9, 1)), Some(&sized(2, 2)), 0, 42) {
        Err(SkipOrFail::Skip(m)) => assert_eq!(m, "a side changed since preview"),
        other => panic!("unexpected {:?}", other),
    }
    it.b = None;
    assert!(matches!(keep_both_precheck(&it, false, Some(&sized(1, 1)), None, 0, 42), Ok(KeepBothStep::OnlyA)));
}

#[test]
fn place_clears_what_is_in_the_way() {
    assert_eq!(place_step(&sized(1, 1), Some(&dir())), PlaceStep::CopyFile { clear_dir: true });
    assert_eq!(place_step(&sized(1, 1), None), PlaceStep::CopyFile { clear_dir: false });
    assert_eq!(place_step(&dir(), Some(&sized(1, 1))), PlaceStep::MakeDir { clear_file: true });
    assert_eq!(place_step(&dir(), Some(&dir())), PlaceStep::MakeDir { clear_file: false });
}

#[test]
fn converging_records_the_surviving_version() {
    let mut base = Baseline::new();
    let mut it = item("same.txt", Action::UpdateBaselineOnly);
    it.a = Some(sized(4, 50));
    it.b = Some(sized(4, 70));
    assert_eq!(converge_baseline(&it, &mut base), Some(50), "B's mtime is aligned to A's");
    assert_eq!(base.get("same.txt").map(|m| m.mtime_ns), Some(50));
    it.a = None;
    it.b = None;
    assert_eq!(converge_baseline(&it, &mut base), None);
    assert!(base.get("same.txt").is_none(), "both gone drops the entry");
}

#[test]
fn settle_moves_the_baseline_only_on_success() {
    let mut base = Baseline::new();
    base.update_entry("p", Some(sized(1, 1)));
    let mut it = item("p", Action::CopyAtoB);
    it.a = Some(sized(7, 70));
    // A failed copy keeps the old entry.
    settle(&mut base, &it, Eff::Copy(Dir::AtoB), None, &Err(SkipOrFail::Fail("boom".into())));
    assert_eq!(base.get("p").map(|m| m.size), Some(1));
    // A skipped copy too.
    settle(&mut base, &it, Eff::Copy(Dir::AtoB), None, &Err(SkipOrFail::Skip("drift".into())));
    assert_eq!(base.get("p").map(|m| m.size), Some(1));
    // A successful copy records the source's snapshot.
    settle(&mut base, &it, Eff::Copy(Dir::AtoB), None, &Ok(7));
    assert_eq!(base.get("p").map(|m| m.size), Some(7));
    // A successful delete forgets the path.
    settle(&mut base, &it, Eff::Delete(Side::B), None, &Ok(0));
    assert!(base.get("p").is_none());
}

#[test]
fn settle_keep_both_records_preserved_copy_and_canonical_version() {
    let mut base = Baseline::new();
    let mut it = conflict("r.txt", ChangeKind::Modified, ChangeKind::Modified);
    it.a = Some(sized(1, 10));
    it.b = Some(sized(2, 20));
    settle(&mut base, &it, Eff::KeepBoth, Some("r.sync-conflict-42-B.txt"), &Ok(1));
    assert_eq!(base.get("r.txt").map(|m| m.size), Some(1), "A wins the canonical name");
    assert_eq!(base.get("r.sync-conflict-42-B.txt").map(|m| m.size), Some(2), "B is preserved");
    // Placement failed after the copies were written: only the copy is recorded.
    let mut base = Baseline::new();
    settle(&mut base, &it, Eff::KeepBoth, Some("r.sync-conflict-42-B.txt"), &Err(SkipOrFail::Fail("x".into())));
    assert!(base.get("r.txt").is_none());
    assert_eq!(base.get("r.sync-conflict-42-B.txt").map(|m| m.size), Some(2));
    // Only B survives: B's version takes the canonical name.
    let mut base = Baseline::new();
    it.a = None;
    settle(&mut base, &it, Eff::KeepBoth, None, &Ok(2));
    assert_eq!(base.get("r.txt").map(|m| m.size), Some(2));
}

#[test]
fn copied_bytes_saturate() {
    let mut r = ApplyReport::empty();
    let it = item("p", Action::CopyAtoB);
    record(&mut r, &it, Ok(u64::MAX - 1));
    record(&mut r, &it, Ok(5));
    assert_eq!(r.bytes_copied, u64::MAX);
    assert_eq!(r.done, 2);
}
