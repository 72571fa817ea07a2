use fast_file_sync::model::{Action, ChangeKind, ConflictType, Decision, EntryKind, Meta, Resolution, SyncMode};
use fast_file_sync::plan::apply_mode;
use fast_file_sync::reconcile::{classify_change, default_resolution, reconcile, resolution_options};
use ChangeKind::{Created, Deleted, Modified, TypeChanged, Unchanged};

fn file(size: u64, mtime: i64) -> Meta {
    Meta { kind: EntryKind::File, size, mtime_ns: mtime, hash: None }
}

fn dir() -> Meta {
    Meta { kind: EntryKind::Dir, size: 0, mtime_ns: 0, hash: None }
}

fn act(a: ChangeKind, b: ChangeKind, identical: bool) -> Action {
    reconcile(a, b, identical).action
}

fn conf(a: ChangeKind, b: ChangeKind) -> ConflictType {
    reconcile(a, b, false).conflict.expect("expected a conflict")
}

#[test]
fn classify_created_deleted_unchanged_modified_typechanged() {
    assert_eq!(classify_change(Some(&file(1, 100)), None, 0), Created);
    assert_eq!(classify_change(None, Some(&file(1, 100)), 0), Deleted);
    assert_eq!(classify_change(Some(&file(1, 100)), Some(&file(1, 100)), 0), Unchanged);
    assert_eq!(classify_change(Some(&file(2, 100)), Some(&file(1, 100)), 0), Modified);
    assert_eq!(classify_change(Some(&file(1, 999)), Some(&file(1, 100)), 0), Modified);
    assert_eq!(classify_change(Some(&dir()), Some(&file(1, 100)), 0), TypeChanged);
    assert_eq!(classify_change(Some(&file(1, 100)), Some(&dir()), 0), TypeChanged);
}

#[test]
fn classify_mtime_tolerance_absorbs_fs_granularity() {
    let gran = 2_000_000_000i64;
    assert_eq!(classify_change(Some(&file(10, 1_000_000_000)), Some(&file(10, 0)), gran), Unchanged);
    assert_eq!(classify_change(Some(&file(10, 3_000_000_000)), Some(&file(10, 0)), gran), Modified);
}

#[test]
fn classify_dirs_with_same_kind_are_unchanged() {
    assert_eq!(classify_change(Some(&dir()), Some(&dir()), 0), Unchanged);
}

#[test]
fn table_unchanged_row() {
    assert_eq!(act(Unchanged, Unchanged, false), Action::Noop);
    assert_eq!(act(Unchanged, Created, false), Action::CopyBtoA);
    assert_eq!(act(Unchanged, Modified, false), Action::CopyBtoA);
    assert_eq!(act(Unchanged, Deleted, false), Action::DeleteA);
    assert_eq!(act(Unchanged, TypeChanged, false), Action::CopyBtoA);
}

#[test]
fn table_mirror_of_unchanged_row() {
    assert_eq!(act(Created, Unchanged, false), Action::CopyAtoB);
    assert_eq!(act(Modified, Unchanged, false), Action::CopyAtoB);
    assert_eq!(act(Deleted, Unchanged, false), Action::DeleteB);
    assert_eq!(act(TypeChanged, Unchanged, false), Action::CopyAtoB);
}

#[test]
fn table_both_changed_same_way_converge_when_identical() {
    assert_eq!(act(Created, Created, true), Action::UpdateBaselineOnly);
    assert_eq!(act(Modified, Modified, true), Action::UpdateBaselineOnly);
    assert_eq!(act(TypeChanged, TypeChanged, true), Action::UpdateBaselineOnly);
}

#[test]
fn table_both_changed_same_way_conflict_when_differing() {
    assert_eq!(conf(Created, Created), ConflictType::CreateCreate);
    assert_eq!(conf(Modified, Modified), ConflictType::EditEdit);
    assert_eq!(conf(TypeChanged, TypeChanged), ConflictType::TypeChangeTypeChange);
}

#[test]
fn table_both_deleted_converges_to_baseline_only() {
    assert_eq!(act(Deleted, Deleted, false), Action::UpdateBaselineOnly);
}

#[test]
fn table_danger_cells_are_conflicts_never_deletes() {
    assert_eq!(conf(Modified, Deleted), ConflictType::ModifyDelete);
    assert_eq!(conf(Deleted, Modified), ConflictType::ModifyDelete);
    assert_eq!(conf(TypeChanged, Deleted), ConflictType::DeleteTypeChange);
    assert_eq!(conf(Deleted, TypeChanged), ConflictType::DeleteTypeChange);
    assert_eq!(conf(Modified, TypeChanged), ConflictType::ModifyTypeChange);
    assert_eq!(conf(TypeChanged, Modified), ConflictType::ModifyTypeChange);
    for (a, b) in [
        (Modified, Deleted),
        (Deleted, Modified),
        (TypeChanged, Deleted),
        (Deleted, TypeChanged),
        (Modified, TypeChanged),
        (TypeChanged, Modified),
    ] {
        let d = reconcile(a, b, false);
        assert!(d.is_conflict());
        assert_ne!(d.action, Action::DeleteA);
        assert_ne!(d.action, Action::DeleteB);
    }
}

#[test]
fn table_impossible_cells_are_state_desync() {
    for (a, b) in [
        (Created, Modified),
        (Created, Deleted),
        (Created, TypeChanged),
        (Modified, Created),
        (Deleted, Created),
        (TypeChanged, Created),
    ] {
        assert_eq!(reconcile(a, b, false).conflict, Some(ConflictType::StateDesync));
    }
}

#[test]
fn table_is_total_and_symmetric_in_safety() {
    let kinds = [Unchanged, Created, Modified, Deleted, TypeChanged];
    for a in kinds {
        for b in kinds {
            let d = reconcile(a, b, false);
            if d.action == Action::DeleteA {
                assert_eq!(a, Unchanged, "DeleteA only when A unchanged");
            }
            if d.action == Action::DeleteB {
                assert_eq!(b, Unchanged, "DeleteB only when B unchanged");
            }
        }
    }
}

#[test]
fn defaults_preserve_data() {
    assert_eq!(default_resolution(ConflictType::ModifyDelete), Resolution::KeepModified);
    assert_eq!(default_resolution(ConflictType::EditEdit), Resolution::KeepBoth);
    assert_eq!(default_resolution(ConflictType::DeleteTypeChange), Resolution::KeepTypeChanged);
    assert_eq!(default_resolution(ConflictType::StateDesync), Resolution::Skip);
    for ct in [
        ConflictType::EditEdit,
        ConflictType::CreateCreate,
        ConflictType::ModifyDelete,
        ConflictType::DeleteTypeChange,
        ConflictType::ModifyTypeChange,
        ConflictType::TypeChangeTypeChange,
        ConflictType::StateDesync,
    ] {
        assert_eq!(resolution_options(ct)[0], default_resolution(ct));
    }
}

// ---- the mode post-filter over all cells ----

const KINDS: [ChangeKind; 5] = [Unchanged, Created, Modified, Deleted, TypeChanged];

fn for_all_cells(mut f: impl FnMut(ChangeKind, ChangeKind, bool, Decision)) {
    for &a in &KINDS {
        for &b in &KINDS {
            for identical in [false, true] {
                let d = reconcile(a, b, identical);
                f(a, b, identical, d);
            }
        }
    }
}

#[test]
fn twoway_is_identity_over_all_25_cells() {
    for_all_cells(|a, b, _id, d| {
        let out = apply_mode(SyncMode::TwoWay, d, a, b);
        assert_eq!(out.action, d.action, "TwoWay must not change the action for ({a:?},{b:?})");
        assert_eq!(out.conflict, d.conflict, "TwoWay must not change the conflict for ({a:?},{b:?})");
    });
}

#[test]
fn mirror_never_acts_on_source_a() {
    for_all_cells(|a, b, _id, d| {
        let out = apply_mode(SyncMode::Mirror, d, a, b);
        assert_ne!(out.action, Action::DeleteA, "Mirror deleted source A for ({a:?},{b:?})");
        assert_ne!(out.action, Action::CopyBtoA, "Mirror wrote back to A for ({a:?},{b:?})");
    });
}

#[test]
fn update_never_deletes() {
    for_all_cells(|a, b, _id, d| {
        let out = apply_mode(SyncMode::Update, d, a, b);
        assert_ne!(out.action, Action::DeleteA, "Update deleted A for ({a:?},{b:?})");
        assert_ne!(out.action, Action::DeleteB, "Update deleted B for ({a:?},{b:?})");
    });
}

#[test]
fn update_never_writes_back_to_a() {
    for_all_cells(|a, b, _id, d| {
        let out = apply_mode(SyncMode::Update, d, a, b);
        assert_ne!(out.action, Action::CopyBtoA, "Update wrote back to A for ({a:?},{b:?})");
    });
}

#[test]
fn statedesync_never_collapsed() {
    let desync_cells = [
        (Created, Modified),
        (Created, Deleted),
        (Created, TypeChanged),
        (Modified, Created),
        (Deleted, Created),
        (TypeChanged, Created),
    ];
    for (a, b) in desync_cells {
        let d = reconcile(a, b, false);
        assert_eq!(d.conflict, Some(ConflictType::StateDesync), "precondition ({a:?},{b:?})");
        for mode in [SyncMode::Mirror, SyncMode::Update] {
            let out = apply_mode(mode, d, a, b);
            assert_eq!(out.action, Action::Conflict, "{mode:?} collapsed StateDesync ({a:?},{b:?})");
            assert_eq!(out.conflict, Some(ConflictType::StateDesync), "{mode:?} dropped StateDesync tag ({a:?},{b:?})");
        }
    }
}

#[test]
fn mirror_b_extra_becomes_deleteb() {
    let d = reconcile(Unchanged, Created, false);
    assert_eq!(d.action, Action::CopyBtoA);
    let out = apply_mode(SyncMode::Mirror, d, Unchanged, Created);
    assert_eq!(out.action, Action::DeleteB);
}

#[test]
fn mirror_b_edit_reverts_via_copyatob() {
    for b in [Modified, TypeChanged] {
        let d = reconcile(Unchanged, b, false);
        assert_eq!(d.action, Action::CopyBtoA, "precondition for (Unchanged,{b:?})");
        let out = apply_mode(SyncMode::Mirror, d, Unchanged, b);
        assert_eq!(out.action, Action::CopyAtoB, "Mirror should revert B via CopyAtoB for {b:?}");
    }
}

#[test]
fn mirror_a_delete_propagates_deleteb() {
    let d = reconcile(Deleted, Unchanged, false);
    assert_eq!(d.action, Action::DeleteB);
    let out = apply_mode(SyncMode::Mirror, d, Deleted, Unchanged);
    assert_eq!(out.action, Action::DeleteB, "Mirror propagates a source-side delete to B");
}

#[test]
fn mirror_modifydelete_preserves_live_a() {
    let d = reconcile(Modified, Deleted, false);
    assert_eq!(d.conflict, Some(ConflictType::ModifyDelete));
    let out = apply_mode(SyncMode::Mirror, d, Modified, Deleted);
    assert_eq!(out.action, Action::CopyAtoB, "Mirror must preserve A's live edit");
    let d2 = reconcile(Deleted, Modified, false);
    assert_eq!(d2.conflict, Some(ConflictType::ModifyDelete));
    let out2 = apply_mode(SyncMode::Mirror, d2, Deleted, Modified);
    assert_eq!(out2.action, Action::DeleteB, "Mirror: A deleted => mirror the delete to B");
}

#[test]
fn update_modifydelete_with_a_deleted_stays_conflict() {
    let d = reconcile(Deleted, Modified, false);
    assert_eq!(d.conflict, Some(ConflictType::ModifyDelete));
    let out = apply_mode(SyncMode::Update, d, Deleted, Modified);
    assert_eq!(out.action, Action::Conflict, "Update can't delete B => stays Conflict");
    assert_eq!(out.conflict, Some(ConflictType::ModifyDelete));
    let d2 = reconcile(Modified, Deleted, false);
    let out2 = apply_mode(SyncMode::Update, d2, Modified, Deleted);
    assert_eq!(out2.action, Action::CopyAtoB);
}

#[test]
fn update_b_delete_of_unchanged_a_converges_via_baseline_advance() {
    let d = reconcile(Unchanged, Deleted, false);
    assert_eq!(d.action, Action::DeleteA);
    let out = apply_mode(SyncMode::Update, d, Unchanged, Deleted);
    assert_eq!(out.action, Action::UpdateBaselineOnly, "Update records B's delete in the baseline so the cell converges");
}

#[test]
fn apply_mode_is_total() {
    for mode in [SyncMode::TwoWay, SyncMode::Mirror, SyncMode::Update] {
        for_all_cells(|a, b, _id, d| {
            let out = apply_mode(mode, d, a, b);
            let is_conflict = out.action == Action::Conflict;
            assert_eq!(is_conflict, out.conflict.is_some(), "{mode:?} produced an inconsistent Decision for ({a:?},{b:?}): {out:?}");
        });
    }
}
