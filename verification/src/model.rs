//! Core data types shared across the engine. Keys are NFC-normalized,
//! forward-slash relative paths (see `pathutil`). All times are UTC nanoseconds.
use vstd::prelude::*;

verus! {

/// What a directory entry physically is. Symlinks/Other are recorded but never
/// traversed or written through.
#[derive(Clone, Copy, Debug, PartialEq, Eq, Structural)]
pub enum EntryKind {
    File,
    Dir,
    Symlink,
    Other,
}

/// Per-path metadata snapshot. `hash` is only filled when content identity has
/// to be decided (verify-by-hash mode).
#[derive(Debug, PartialEq, Eq)]
pub struct Meta {
    pub kind: EntryKind,
    pub size: u64,
    /// Modification time as signed nanoseconds from the UNIX epoch, UTC.
    pub mtime_ns: i64,
    /// blake3 content hash (hex) for files; `None` until computed.
    pub hash: Option<String>,
}

impl Meta {
    pub fn is_dir(&self) -> (r: bool)
        ensures
            r == (self.kind == EntryKind::Dir),
    {
        matches!(self.kind, EntryKind::Dir)
    }

    pub fn is_file(&self) -> (r: bool)
        ensures
            r == (self.kind == EntryKind::File),
    {
        matches!(self.kind, EntryKind::File)
    }

    /// A field-by-field copy of this snapshot.
    pub fn duplicate(&self) -> (r: Meta)
        ensures
            r == *self,
    {
        let hash = match &self.hash {
            Some(h) => Some(h.clone()),
            None => None,
        };
        Meta { kind: self.kind, size: self.size, mtime_ns: self.mtime_ns, hash }
    }
}

impl Clone for Meta {
    fn clone(&self) -> (r: Meta)
        ensures
            r == *self,
    {
        self.duplicate()
    }
}

/// Copy of an optional snapshot.
pub fn duplicate_opt(m: Option<&Meta>) -> (r: Option<Meta>)
    ensures
        match m {
            Some(x) => r == Some(*x),
            None => r is None,
        },
{
    match m {
        Some(x) => Some(x.duplicate()),
        None => None,
    }
}

/// One-way post-filter applied to each reconcile `Decision`. `A` is always the
/// canonical source for Mirror/Update.
#[derive(Clone, Copy, Debug, PartialEq, Eq, Structural)]
pub enum SyncMode {
    /// Bidirectional reconciliation — the identity post-filter.
    TwoWay,
    /// `A` is the source of truth; `B` becomes a faithful copy of `A`.
    Mirror,
    /// `A -> B` additive: never delete on `B`, never write back to `A`.
    Update,
}

impl SyncMode {
    /// The default mode, `TwoWay`.
    pub fn default_mode() -> (r: SyncMode)
        ensures
            r == SyncMode::TwoWay,
    {
        SyncMode::TwoWay
    }
}

/// A side's change relative to the baseline (prior-sync state).
#[derive(Clone, Copy, Debug, PartialEq, Eq, Structural)]
pub enum ChangeKind {
    Unchanged,
    Created,
    Modified,
    Deleted,
    TypeChanged,
}

/// The reconciled action for a path.
#[derive(Clone, Copy, Debug, PartialEq, Eq, Structural)]
pub enum Action {
    Noop,
    CopyAtoB,
    CopyBtoA,
    DeleteA,
    DeleteB,
    /// Both sides converged identically (or both deleted): advance baseline, no IO.
    UpdateBaselineOnly,
    Conflict,
}

#[derive(Clone, Copy, Debug, PartialEq, Eq, Structural)]
pub enum ConflictType {
    /// Both edited the file, results differ.
    EditEdit,
    /// Both created the same new path, contents differ.
    CreateCreate,
    /// One modified, the other deleted.
    ModifyDelete,
    /// One deleted, the other replaced file<->dir.
    DeleteTypeChange,
    /// One edited content, the other replaced file<->dir.
    ModifyTypeChange,
    /// Both replaced file<->dir differently.
    TypeChangeTypeChange,
    /// A logically impossible pairing — refuse to act.
    StateDesync,
}

/// How the user (or a default policy) resolves a conflict.
#[derive(Clone, Copy, Debug, PartialEq, Eq, Structural)]
pub enum Resolution {
    KeepA,
    KeepB,
    KeepNewer,
    KeepBoth,
    /// For modify/delete: propagate the deletion (discard the edit).
    PropagateDelete,
    /// For modify/delete: keep the modified side.
    KeepModified,
    /// For delete/typechange: keep the replacement.
    KeepTypeChanged,
    Skip,
}

/// One reconciliation decision (the action plus an optional conflict tag).
#[derive(Clone, Copy, Debug, PartialEq, Eq, Structural)]
pub struct Decision {
    pub action: Action,
    pub conflict: Option<ConflictType>,
}

/// A decision is well formed when it carries a conflict tag exactly when its
/// action is `Conflict`.
pub open spec fn decision_well_formed(d: Decision) -> bool {
    (d.action == Action::Conflict) <==> (d.conflict is Some)
}

impl Decision {
    pub fn plain(action: Action) -> (r: Decision)
        ensures
            r.action == action,
            r.conflict is None,
    {
        Decision { action, conflict: None }
    }

    pub fn conflict(ct: ConflictType) -> (r: Decision)
        ensures
            r.action == Action::Conflict,
            r.conflict == Some(ct),
    {
        Decision { action: Action::Conflict, conflict: Some(ct) }
    }

    pub fn is_conflict(&self) -> (r: bool)
        ensures
            r == (self.action == Action::Conflict),
    {
        matches!(self.action, Action::Conflict)
    }
}

/// One row of the preview.
#[derive(Debug)]
pub struct PlanItem {
    pub path: String,
    pub action: Action,
    pub conflict: Option<ConflictType>,
    pub a_change: ChangeKind,
    pub b_change: ChangeKind,
    pub a: Option<Meta>,
    pub b: Option<Meta>,
    pub base: Option<Meta>,
    pub default_resolution: Option<Resolution>,
    /// Resolution options the UI should offer for this conflict.
    pub resolution_options: Vec<Resolution>,
    pub note: String,
}

#[derive(Debug, Clone, Copy, PartialEq, Eq, Structural)]
pub struct PlanSummary {
    pub total: usize,
    pub copy_a_to_b: usize,
    pub copy_b_to_a: usize,
    pub delete_a: usize,
    pub delete_b: usize,
    pub conflicts: usize,
    pub baseline_only: usize,
    pub noop: usize,
    /// Files that were skipped during scan (symlinks, reparse points, cloud stubs).
    pub skipped: usize,
}

impl PlanSummary {
    pub fn zero() -> (r: PlanSummary)
        ensures
            r == (PlanSummary {
                total: 0,
                copy_a_to_b: 0,
                copy_b_to_a: 0,
                delete_a: 0,
                delete_b: 0,
                conflicts: 0,
                baseline_only: 0,
                noop: 0,
                skipped: 0,
            }),
    {
        PlanSummary {
            total: 0,
            copy_a_to_b: 0,
            copy_b_to_a: 0,
            delete_a: 0,
            delete_b: 0,
            conflicts: 0,
            baseline_only: 0,
            noop: 0,
            skipped: 0,
        }
    }
}

#[derive(Clone, Copy, Debug, PartialEq, Eq, Structural)]
pub enum BaselineStatusKind {
    /// A valid prior-sync baseline was loaded; deletions may propagate.
    Present,
    /// No baseline yet — first sync. Union-only, zero deletions.
    FirstSync,
    /// Baseline existed but was unreadable/corrupt — fall back to safe union.
    Corrupt,
}

/// Set when a run would delete more than the configured threshold. Fractions
/// are expressed in parts per million (`1_000_000` = 100%).
#[derive(Clone, Copy, Debug, PartialEq, Eq, Structural)]
pub struct BigDeleteWarning {
    pub deletions: usize,
    pub total_members: usize,
    /// `deletions / total_members` in parts per million (rounded down), or
    /// `1_000_000` when there are no members.
    pub pct_ppm: u64,
    pub threshold_pct_ppm: u64,
    pub threshold_abs: usize,
}

#[derive(Debug)]
pub struct SyncPlan {
    pub root_a: String,
    pub root_b: String,
    pub items: Vec<PlanItem>,
    pub summary: PlanSummary,
    pub baseline_status: BaselineStatusKind,
    pub big_delete: Option<BigDeleteWarning>,
    /// Non-fatal scan notes (skipped entries, etc.) to show the user.
    pub warnings: Vec<String>,
}

#[derive(Clone, Copy, Debug, PartialEq, Eq, Structural)]
pub enum ItemStatus {
    Done,
    Skipped,
    Failed,
    Conflict,
}

#[derive(Debug)]
pub struct ItemOutcome {
    pub path: String,
    pub action: Action,
    pub status: ItemStatus,
    pub error: Option<String>,
}

#[derive(Debug)]
pub struct ApplyReport {
    pub done: usize,
    pub failed: usize,
    pub skipped: usize,
    pub conflicts: usize,
    pub bytes_copied: u64,
    pub outcomes: Vec<ItemOutcome>,
}

impl ApplyReport {
    pub fn empty() -> (r: ApplyReport)
        ensures
            r.done == 0,
            r.failed == 0,
            r.skipped == 0,
            r.conflicts == 0,
            r.bytes_copied == 0,
            r.outcomes@.len() == 0,
    {
        ApplyReport {
            done: 0,
            failed: 0,
            skipped: 0,
            conflicts: 0,
            bytes_copied: 0,
            outcomes: Vec::new(),
        }
    }
}

impl Default for ApplyReport {
    fn default() -> (r: ApplyReport)
        ensures
            r.done == 0,
            r.failed == 0,
            r.skipped == 0,
            r.conflicts == 0,
            r.bytes_copied == 0,
            r.outcomes@.len() == 0,
    {
        ApplyReport::empty()
    }
}

} // verus!
