//! The reconciliation keystone: pure functions from (change_a, change_b,
//! content-identity) to an `Action`. No IO. This encodes the full 5x5 truth
//! table and is the single source of reconciliation truth.
use crate::model::{Action, ChangeKind, ConflictType, Decision, EntryKind, Meta, Resolution, decision_well_formed};
use vstd::prelude::*;

verus! {

/// `|a - b| <= gran`, computed over mathematical integers.
pub open spec fn spec_mtime_close(a: int, b: int, gran: int) -> bool {
    a - b <= gran && b - a <= gran
}

/// The change of one side against the baseline (metadata, or content hashes
/// when both are known).
pub open spec fn spec_classify(side: Option<Meta>, base: Option<Meta>, gran: int) -> ChangeKind {
    match (side, base) {
        (None, None) => ChangeKind::Unchanged,
        (Some(_), None) => ChangeKind::Created,
        (None, Some(_)) => ChangeKind::Deleted,
        (Some(s), Some(b)) => {
            if s.kind != b.kind {
                ChangeKind::TypeChanged
            } else if s.kind == EntryKind::Dir {
                ChangeKind::Unchanged
            } else if s.hash is Some && b.hash is Some {
                if s.hash->0@ == b.hash->0@ {
                    ChangeKind::Unchanged
                } else {
                    ChangeKind::Modified
                }
            } else if s.size == b.size && spec_mtime_close(s.mtime_ns as int, b.mtime_ns as int, gran) {
                ChangeKind::Unchanged
            } else {
                ChangeKind::Modified
            }
        },
    }
}

pub open spec fn opt_ref_meta(m: Option<&Meta>) -> Option<Meta> {
    match m {
        Some(x) => Some(*x),
        None => None,
    }
}

/// Classify one side's state against the baseline. Metadata-only (size +
/// mtime) unless both content hashes are present.
pub fn classify_change(side: Option<&Meta>, base: Option<&Meta>, gran_ns: i64) -> (r: ChangeKind)
    ensures
        r == spec_classify(opt_ref_meta(side), opt_ref_meta(base), gran_ns as int),
{
    match (side, base) {
        (None, None) => ChangeKind::Unchanged,
        (Some(_), None) => ChangeKind::Created,
        (None, Some(_)) => ChangeKind::Deleted,
        (Some(s), Some(b)) => {
            if s.kind != b.kind {
                ChangeKind::TypeChanged
            } else if s.is_dir() {
                ChangeKind::Unchanged
            } else {
                match (&s.hash, &b.hash) {
                    (Some(sh), Some(bh)) => {
                        if *sh == *bh {
                            ChangeKind::Unchanged
                        } else {
                            ChangeKind::Modified
                        }
                    },
                    _ => {
                        if s.size == b.size && mtime_close(s.mtime_ns, b.mtime_ns, gran_ns) {
                            ChangeKind::Unchanged
                        } else {
                            ChangeKind::Modified
                        }
                    },
                }
            }
        },
    }
}

/// mtime equality within filesystem granularity.
pub fn mtime_close(a: i64, b: i64, gran_ns: i64) -> (r: bool)
    ensures
        r == spec_mtime_close(a as int, b as int, gran_ns as int),
{
    let d: i128 = (a as i128) - (b as i128);
    let ad: i128 = if d < 0 { -d } else { d };
    ad <= gran_ns as i128
}

pub open spec fn plain(a: Action) -> Decision {
    Decision { action: a, conflict: None }
}

pub open spec fn conflict_of(ct: ConflictType) -> Decision {
    Decision { action: Action::Conflict, conflict: Some(ct) }
}

/// The 5x5 truth table.
pub open spec fn spec_reconcile(a: ChangeKind, b: ChangeKind, identical: bool) -> Decision {
    match (a, b) {
        (ChangeKind::Unchanged, ChangeKind::Unchanged) => plain(Action::Noop),
        (ChangeKind::Unchanged, ChangeKind::Created) | (ChangeKind::Unchanged, ChangeKind::Modified) | (ChangeKind::Unchanged, ChangeKind::TypeChanged) => plain(Action::CopyBtoA),
        (ChangeKind::Created, ChangeKind::Unchanged) | (ChangeKind::Modified, ChangeKind::Unchanged) | (ChangeKind::TypeChanged, ChangeKind::Unchanged) => plain(Action::CopyAtoB),
        (ChangeKind::Unchanged, ChangeKind::Deleted) => plain(Action::DeleteA),
        (ChangeKind::Deleted, ChangeKind::Unchanged) => plain(Action::DeleteB),
        (ChangeKind::Created, ChangeKind::Created) => if identical { plain(Action::UpdateBaselineOnly) } else { conflict_of(ConflictType::CreateCreate) },
        (ChangeKind::Modified, ChangeKind::Modified) => if identical { plain(Action::UpdateBaselineOnly) } else { conflict_of(ConflictType::EditEdit) },
        (ChangeKind::TypeChanged, ChangeKind::TypeChanged) => if identical { plain(Action::UpdateBaselineOnly) } else { conflict_of(ConflictType::TypeChangeTypeChange) },
        (ChangeKind::Deleted, ChangeKind::Deleted) => plain(Action::UpdateBaselineOnly),
        (ChangeKind::Modified, ChangeKind::Deleted) | (ChangeKind::Deleted, ChangeKind::Modified) => conflict_of(ConflictType::ModifyDelete),
        (ChangeKind::TypeChanged, ChangeKind::Deleted) | (ChangeKind::Deleted, ChangeKind::TypeChanged) => conflict_of(ConflictType::DeleteTypeChange),
        (ChangeKind::Modified, ChangeKind::TypeChanged) | (ChangeKind::TypeChanged, ChangeKind::Modified) => conflict_of(ConflictType::ModifyTypeChange),
        (ChangeKind::Created, ChangeKind::Modified) | (ChangeKind::Created, ChangeKind::Deleted) | (ChangeKind::Created, ChangeKind::TypeChanged)
        | (ChangeKind::Modified, ChangeKind::Created) | (ChangeKind::Deleted, ChangeKind::Created) | (ChangeKind::TypeChanged, ChangeKind::Created) => conflict_of(ConflictType::StateDesync),
    }
}

/// The full 5x5 reconciliation table. `identical` is only consulted for the
/// three "both changed the same way" cells.
pub fn reconcile(a: ChangeKind, b: ChangeKind, identical: bool) -> (r: Decision)
    ensures
        r == spec_reconcile(a, b, identical),
{
    match (a, b) {
        (ChangeKind::Unchanged, ChangeKind::Unchanged) => Decision::plain(Action::Noop),
        (ChangeKind::Unchanged, ChangeKind::Created) | (ChangeKind::Unchanged, ChangeKind::Modified) | (ChangeKind::Unchanged, ChangeKind::TypeChanged) => Decision::plain(Action::CopyBtoA),
        (ChangeKind::Created, ChangeKind::Unchanged) | (ChangeKind::Modified, ChangeKind::Unchanged) | (ChangeKind::TypeChanged, ChangeKind::Unchanged) => Decision::plain(Action::CopyAtoB),
        (ChangeKind::Unchanged, ChangeKind::Deleted) => Decision::plain(Action::DeleteA),
        (ChangeKind::Deleted, ChangeKind::Unchanged) => Decision::plain(Action::DeleteB),
        (ChangeKind::Created, ChangeKind::Created) => {
            if identical { Decision::plain(Action::UpdateBaselineOnly) } else { Decision::conflict(ConflictType::CreateCreate) }
        },
        (ChangeKind::Modified, ChangeKind::Modified) => {
            if identical { Decision::plain(Action::UpdateBaselineOnly) } else { Decision::conflict(ConflictType::EditEdit) }
        },
        (ChangeKind::TypeChanged, ChangeKind::TypeChanged) => {
            if identical { Decision::plain(Action::UpdateBaselineOnly) } else { Decision::conflict(ConflictType::TypeChangeTypeChange) }
        },
        (ChangeKind::Deleted, ChangeKind::Deleted) => Decision::plain(Action::UpdateBaselineOnly),
        (ChangeKind::Modified, ChangeKind::Deleted) | (ChangeKind::Deleted, ChangeKind::Modified) => Decision::conflict(ConflictType::ModifyDelete),
        (ChangeKind::TypeChanged, ChangeKind::Deleted) | (ChangeKind::Deleted, ChangeKind::TypeChanged) => Decision::conflict(ConflictType::DeleteTypeChange),
        (ChangeKind::Modified, ChangeKind::TypeChanged) | (ChangeKind::TypeChanged, ChangeKind::Modified) => Decision::conflict(ConflictType::ModifyTypeChange),
        (ChangeKind::Created, ChangeKind::Modified) | (ChangeKind::Created, ChangeKind::Deleted) | (ChangeKind::Created, ChangeKind::TypeChanged)
        | (ChangeKind::Modified, ChangeKind::Created) | (ChangeKind::Deleted, ChangeKind::Created) | (ChangeKind::TypeChanged, ChangeKind::Created) => Decision::conflict(ConflictType::StateDesync),
    }
}

/// The action seen from the other side: A and B swapped.
pub open spec fn swap_action(a: Action) -> Action {
    match a {
        Action::CopyAtoB => Action::CopyBtoA,
        Action::CopyBtoA => Action::CopyAtoB,
        Action::DeleteA => Action::DeleteB,
        Action::DeleteB => Action::DeleteA,
        other => other,
    }
}

/// Safety invariant of the table: an automatic delete only ever removes a side
/// that is unchanged since the baseline while the other side deleted it, and
/// every decision carries a conflict tag exactly when it is a conflict.
pub proof fn law_table_never_deletes_live_data(a: ChangeKind, b: ChangeKind, identical: bool)
    ensures
        spec_reconcile(a, b, identical).action == Action::DeleteA ==> a == ChangeKind::Unchanged && b == ChangeKind::Deleted,
        spec_reconcile(a, b, identical).action == Action::DeleteB ==> b == ChangeKind::Unchanged && a == ChangeKind::Deleted,
        decision_well_formed(spec_reconcile(a, b, identical)),
{
}

/// A delete racing a change is always a conflict, never a delete.
pub proof fn law_delete_racing_change_is_conflict(a: ChangeKind, b: ChangeKind, identical: bool)
    requires
        (a == ChangeKind::Deleted && (b == ChangeKind::Modified || b == ChangeKind::TypeChanged))
        || (b == ChangeKind::Deleted && (a == ChangeKind::Modified || a == ChangeKind::TypeChanged)),
    ensures
        spec_reconcile(a, b, identical).action == Action::Conflict,
{
}

/// The table treats A and B alike: swapping the sides swaps the direction of
/// the action and keeps the conflict type.
pub proof fn law_table_is_symmetric(a: ChangeKind, b: ChangeKind, identical: bool)
    ensures
        spec_reconcile(b, a, identical).action == swap_action(spec_reconcile(a, b, identical).action),
        spec_reconcile(b, a, identical).conflict == spec_reconcile(a, b, identical).conflict,
{
}

pub open spec fn spec_default_resolution(ct: ConflictType) -> Resolution {
    match ct {
        ConflictType::EditEdit | ConflictType::CreateCreate | ConflictType::TypeChangeTypeChange
        | ConflictType::ModifyTypeChange => Resolution::KeepBoth,
        ConflictType::ModifyDelete => Resolution::KeepModified,
        ConflictType::DeleteTypeChange => Resolution::KeepTypeChanged,
        ConflictType::StateDesync => Resolution::Skip,
    }
}

/// The data-preserving default resolution offered for each conflict type.
pub fn default_resolution(ct: ConflictType) -> (r: Resolution)
    ensures
        r == spec_default_resolution(ct),
{
    match ct {
        ConflictType::EditEdit | ConflictType::CreateCreate | ConflictType::TypeChangeTypeChange
        | ConflictType::ModifyTypeChange => Resolution::KeepBoth,
        ConflictType::ModifyDelete => Resolution::KeepModified,
        ConflictType::DeleteTypeChange => Resolution::KeepTypeChanged,
        ConflictType::StateDesync => Resolution::Skip,
    }
}

pub open spec fn spec_resolution_options(ct: ConflictType) -> Seq<Resolution> {
    match ct {
        ConflictType::EditEdit | ConflictType::CreateCreate | ConflictType::TypeChangeTypeChange => seq![
            Resolution::KeepBoth,
            Resolution::KeepA,
            Resolution::KeepB,
            Resolution::KeepNewer,
            Resolution::Skip,
        ],
        ConflictType::ModifyDelete => seq![Resolution::KeepModified, Resolution::PropagateDelete, Resolution::KeepBoth, Resolution::Skip],
        ConflictType::DeleteTypeChange => seq![Resolution::KeepTypeChanged, Resolution::PropagateDelete, Resolution::KeepBoth, Resolution::Skip],
        ConflictType::ModifyTypeChange => seq![Resolution::KeepBoth, Resolution::KeepA, Resolution::KeepB, Resolution::Skip],
        ConflictType::StateDesync => seq![Resolution::Skip, Resolution::KeepA, Resolution::KeepB, Resolution::KeepBoth],
    }
}

/// The resolution choices the UI should present for a conflict type.
pub fn resolution_options(ct: ConflictType) -> (r: Vec<Resolution>)
    ensures
        r@ == spec_resolution_options(ct),
{
    match ct {
        ConflictType::EditEdit | ConflictType::CreateCreate | ConflictType::TypeChangeTypeChange => vec![
            Resolution::KeepBoth,
            Resolution::KeepA,
            Resolution::KeepB,
            Resolution::KeepNewer,
            Resolution::Skip,
        ],
        ConflictType::ModifyDelete => vec![Resolution::KeepModified, Resolution::PropagateDelete, Resolution::KeepBoth, Resolution::Skip],
        ConflictType::DeleteTypeChange => vec![Resolution::KeepTypeChanged, Resolution::PropagateDelete, Resolution::KeepBoth, Resolution::Skip],
        ConflictType::ModifyTypeChange => vec![Resolution::KeepBoth, Resolution::KeepA, Resolution::KeepB, Resolution::Skip],
        ConflictType::StateDesync => vec![Resolution::Skip, Resolution::KeepA, Resolution::KeepB, Resolution::KeepBoth],
    }
}

/// The first option offered for a conflict is always its default resolution,
/// and `Resolution::Skip` is always among the options.
pub proof fn law_first_option_is_default(ct: ConflictType)
    ensures
        spec_resolution_options(ct).len() > 0,
        spec_resolution_options(ct)[0] == spec_default_resolution(ct),
        spec_resolution_options(ct).contains(Resolution::Skip),
{
    let s = spec_resolution_options(ct);
    assert(s[s.len() - 1] == Resolution::Skip || s[0] == Resolution::Skip);
}

/// ChangeKind::Unchanged-on-both-sides and classification of absent metadata: a path that
/// is neither on the side nor in the baseline counts as unchanged, and a path
/// compared with itself is unchanged for any non-negative tolerance.
pub proof fn law_classify_self_is_unchanged(m: Meta, gran: int)
    requires
        gran >= 0,
    ensures
        spec_classify(Some(m), Some(m), gran) == ChangeKind::Unchanged,
{
}

/// In verify-by-hash mode the content decides. When both hashes are known,
/// a file whose kind did not change is `Unchanged` exactly when its hash
/// equals the baseline's, and `Modified` otherwise. Its size, its
/// modification time and the granularity make no difference: two pairs of
/// entries with the same kinds and hashes classify alike.
pub proof fn law_hashes_decide(s: Meta, b: Meta, gran: int, s2: Meta, b2: Meta, gran2: int)
    requires
        s.kind == b.kind,
        s.kind != EntryKind::Dir,
        s.hash is Some,
        b.hash is Some,
        s2.kind == s.kind,
        b2.kind == b.kind,
        s2.hash == s.hash,
        b2.hash == b.hash,
    ensures
        spec_classify(Some(s), Some(b), gran) == ChangeKind::Unchanged <==> s.hash->0@ == b.hash->0@,
        spec_classify(Some(s), Some(b), gran) == ChangeKind::Modified <==> s.hash->0@ != b.hash->0@,
        spec_classify(Some(s2), Some(b2), gran2) == spec_classify(Some(s), Some(b), gran),
{
}

} // verus!
