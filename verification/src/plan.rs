//! Builds a `SyncPlan` from the two scans plus the baseline. This is where the
//! pure truth table meets the safety guards:
//!  * the filtered-file delete guard — a path absent from a side's scan but
//!    still present on disk is ignored, never deleted;
//!  * first-sync / corrupt-baseline / scan-error forces zero deletions;
//!  * a big-delete guard; and
//!  * case-only collision detection for case-insensitive destinations.
use crate::baseline::Baseline;
use crate::config::JobConfig;
use crate::entries::{sorted_union, views, EntryMap, KeySet};
use crate::keys::{seq_lt, strictly_sorted};
use crate::model::{
    duplicate_opt, Action, BaselineStatusKind, BigDeleteWarning, ChangeKind, ConflictType,
    Decision, EntryKind, Meta, PlanItem, PlanSummary, Resolution, SyncMode, SyncPlan,
    decision_well_formed,
};
use crate::pathutil::{case_fold, lowercase};
use crate::reconcile::{
    classify_change, conflict_of, default_resolution, plain, reconcile, resolution_options,
    spec_classify, spec_default_resolution, spec_reconcile, spec_resolution_options,
};
use vstd::prelude::*;

verus! {

// ---------------------------------------------------------------------------
// One-way mode post-filter
// ---------------------------------------------------------------------------

pub open spec fn spec_mirror_revert_b(a: ChangeKind, b: ChangeKind) -> Decision {
    match (a, b) {
        (ChangeKind::Unchanged, ChangeKind::Created) => plain(Action::DeleteB),
        _ => plain(Action::CopyAtoB),
    }
}

pub open spec fn spec_collapse_conflict_mirror(d: Decision, a: ChangeKind) -> Decision {
    match d.conflict {
        Some(ConflictType::StateDesync) => d,
        Some(_) => if a == ChangeKind::Deleted { plain(Action::DeleteB) } else { plain(Action::CopyAtoB) },
        None => d,
    }
}

pub open spec fn spec_collapse_conflict_update(d: Decision, a: ChangeKind) -> Decision {
    match d.conflict {
        Some(ConflictType::StateDesync) => d,
        Some(_) => if a == ChangeKind::Deleted { d } else { plain(Action::CopyAtoB) },
        None => d,
    }
}

/// Post-filter a reconcile `Decision` under a one-way `SyncMode`.
pub open spec fn spec_apply_mode(mode: SyncMode, d: Decision, a: ChangeKind, b: ChangeKind) -> Decision {
    match mode {
        SyncMode::TwoWay => d,
        SyncMode::Update => match d.action {
            Action::CopyBtoA => plain(Action::Noop),
            Action::DeleteA => plain(Action::UpdateBaselineOnly),
            Action::DeleteB => plain(Action::Noop),
            Action::Conflict => spec_collapse_conflict_update(d, a),
            _ => d,
        },
        SyncMode::Mirror => match d.action {
            Action::CopyBtoA => spec_mirror_revert_b(a, b),
            Action::DeleteA => plain(Action::Noop),
            Action::DeleteB => d,
            Action::Conflict => spec_collapse_conflict_mirror(d, a),
            _ => d,
        },
    }
}

/// Mirror: `B` changed but `A` did not. Revert `B` to match the source `A`.
fn mirror_revert_b(a: ChangeKind, b: ChangeKind) -> (r: Decision)
    ensures
        r == spec_mirror_revert_b(a, b),
{
    match (a, b) {
        (ChangeKind::Unchanged, ChangeKind::Created) => Decision::plain(Action::DeleteB),
        _ => Decision::plain(Action::CopyAtoB),
    }
}

/// Mirror collapses every resolvable conflict to "A wins"; `StateDesync` is
/// never collapsed.
fn collapse_conflict_mirror(d: Decision, a: ChangeKind) -> (r: Decision)
    ensures
        r == spec_collapse_conflict_mirror(d, a),
{
    match d.conflict {
        Some(ConflictType::StateDesync) => d,
        Some(_) => match a {
            ChangeKind::Deleted => Decision::plain(Action::DeleteB),
            _ => Decision::plain(Action::CopyAtoB),
        },
        None => d,
    }
}

/// Update collapses conflicts only in the additive `A -> B` direction and
/// never deletes; an A-side deletion conflict stays a conflict.
fn collapse_conflict_update(d: Decision, a: ChangeKind) -> (r: Decision)
    ensures
        r == spec_collapse_conflict_update(d, a),
{
    match d.conflict {
        Some(ConflictType::StateDesync) => d,
        Some(_) => match a {
            ChangeKind::Deleted => d,
            _ => Decision::plain(Action::CopyAtoB),
        },
        None => d,
    }
}

/// Post-filter a reconcile `Decision` under a one-way `SyncMode`. `A` is the
/// source of truth for Mirror/Update; `TwoWay` is the identity.
pub fn apply_mode(mode: SyncMode, d: Decision, a: ChangeKind, b: ChangeKind) -> (r: Decision)
    ensures
        r == spec_apply_mode(mode, d, a, b),
{
    match mode {
        SyncMode::TwoWay => d,
        SyncMode::Update => match d.action {
            Action::CopyBtoA => Decision::plain(Action::Noop),
            Action::DeleteA => Decision::plain(Action::UpdateBaselineOnly),
            Action::DeleteB => Decision::plain(Action::Noop),
            Action::Conflict => collapse_conflict_update(d, a),
            _ => d,
        },
        SyncMode::Mirror => match d.action {
            Action::CopyBtoA => mirror_revert_b(a, b),
            Action::DeleteA => Decision::plain(Action::Noop),
            Action::DeleteB => d,
            Action::Conflict => collapse_conflict_mirror(d, a),
            _ => d,
        },
    }
}

/// `TwoWay` leaves every decision untouched.
pub proof fn law_twoway_is_identity(d: Decision, a: ChangeKind, b: ChangeKind)
    ensures
        spec_apply_mode(SyncMode::TwoWay, d, a, b) == d,
{
}

/// Mirror never acts on the source `A`: it never deletes `A` and never writes
/// back to `A`, whatever decision it is given.
pub proof fn law_mirror_never_acts_on_source(d: Decision, a: ChangeKind, b: ChangeKind)
    ensures
        spec_apply_mode(SyncMode::Mirror, d, a, b).action != Action::DeleteA,
        spec_apply_mode(SyncMode::Mirror, d, a, b).action != Action::CopyBtoA,
{
}

/// Update never deletes on either side and never writes back to `A`.
pub proof fn law_update_never_deletes_or_writes_back(d: Decision, a: ChangeKind, b: ChangeKind)
    ensures
        spec_apply_mode(SyncMode::Update, d, a, b).action != Action::DeleteA,
        spec_apply_mode(SyncMode::Update, d, a, b).action != Action::DeleteB,
        spec_apply_mode(SyncMode::Update, d, a, b).action != Action::CopyBtoA,
{
}

/// A `StateDesync` conflict survives every mode unchanged.
pub proof fn law_state_desync_never_collapsed(mode: SyncMode, a: ChangeKind, b: ChangeKind)
    ensures
        spec_apply_mode(mode, conflict_of(ConflictType::StateDesync), a, b) == conflict_of(ConflictType::StateDesync),
{
}

/// Every mode maps a well-formed decision to a well-formed decision.
pub proof fn law_apply_mode_well_formed(mode: SyncMode, d: Decision, a: ChangeKind, b: ChangeKind)
    requires
        decision_well_formed(d),
    ensures
        decision_well_formed(spec_apply_mode(mode, d, a, b)),
{
}

// ---------------------------------------------------------------------------
// Delete suppression
// ---------------------------------------------------------------------------

pub open spec fn dst_changed(c: ChangeKind) -> bool {
    c == ChangeKind::Modified || c == ChangeKind::Created || c == ChangeKind::TypeChanged
}

/// A mode-rewritten copy that overwrites a destination carrying its own live
/// edit is morally a delete of that edit.
pub open spec fn spec_destructive_overwrite(reconciled: Decision, filtered: Decision, a: ChangeKind, b: ChangeKind) -> bool {
    reconciled.action != filtered.action && match filtered.action {
        Action::CopyAtoB => dst_changed(b),
        Action::CopyBtoA => dst_changed(a),
        _ => false,
    }
}

fn is_mode_induced_destructive_overwrite(reconciled: Decision, filtered: Decision, a_change: ChangeKind, b_change: ChangeKind) -> (r: bool)
    ensures
        r == spec_destructive_overwrite(reconciled, filtered, a_change, b_change),
{
    if reconciled.action == filtered.action {
        return false;
    }
    match filtered.action {
        Action::CopyAtoB => matches!(b_change, ChangeKind::Modified | ChangeKind::Created | ChangeKind::TypeChanged),
        Action::CopyBtoA => matches!(a_change, ChangeKind::Modified | ChangeKind::Created | ChangeKind::TypeChanged),
        _ => false,
    }
}

/// The decision after the mode post-filter and the delete clamps.
pub open spec fn spec_clamp(mode: SyncMode, reconciled: Decision, a: ChangeKind, b: ChangeKind, block: bool) -> Decision {
    let d = spec_apply_mode(mode, reconciled, a, b);
    let d1 = if block && (d.action == Action::DeleteA || d.action == Action::DeleteB) { plain(Action::Noop) } else { d };
    if block && spec_destructive_overwrite(reconciled, d1, a, b) { plain(Action::Noop) } else { d1 }
}

/// Mode post-filter followed by the suppression clamps: while deletes are
/// blocked, neither a delete nor a mode-induced overwrite of a live edit
/// survives.
pub fn clamp_decision(mode: SyncMode, reconciled: Decision, a_change: ChangeKind, b_change: ChangeKind, block_deletes: bool) -> (r: Decision)
    ensures
        r == spec_clamp(mode, reconciled, a_change, b_change, block_deletes),
{
    let mut decision = apply_mode(mode, reconciled, a_change, b_change);
    if block_deletes && matches!(decision.action, Action::DeleteA | Action::DeleteB) {
        decision = Decision::plain(Action::Noop);
    }
    if block_deletes && is_mode_induced_destructive_overwrite(reconciled, decision, a_change, b_change) {
        decision = Decision::plain(Action::Noop);
    }
    decision
}

/// While deletes are blocked no decision deletes, whatever the mode.
pub proof fn law_blocked_clamp_never_deletes(mode: SyncMode, reconciled: Decision, a: ChangeKind, b: ChangeKind)
    ensures
        spec_clamp(mode, reconciled, a, b, true).action != Action::DeleteA,
        spec_clamp(mode, reconciled, a, b, true).action != Action::DeleteB,
{
}

/// Without blocking, the clamp is exactly the mode post-filter.
pub proof fn law_unblocked_clamp_is_mode(mode: SyncMode, reconciled: Decision, a: ChangeKind, b: ChangeKind)
    ensures
        spec_clamp(mode, reconciled, a, b, false) == spec_apply_mode(mode, reconciled, a, b),
{
}

// ---------------------------------------------------------------------------
// Content identity
// ---------------------------------------------------------------------------

pub open spec fn spec_needs_identity(a: ChangeKind, b: ChangeKind) -> bool {
    (a == ChangeKind::Created && b == ChangeKind::Created) || (a == ChangeKind::Modified && b == ChangeKind::Modified)
        || (a == ChangeKind::TypeChanged && b == ChangeKind::TypeChanged)
}

/// Only the "both changed the same way" cells need content identity.
pub fn needs_identity(a: ChangeKind, b: ChangeKind) -> (r: bool)
    ensures
        r == spec_needs_identity(a, b),
{
    matches!(
        (a, b),
        (ChangeKind::Created, ChangeKind::Created) | (ChangeKind::Modified, ChangeKind::Modified)
            | (ChangeKind::TypeChanged, ChangeKind::TypeChanged)
    )
}

/// Are the two live versions byte+type identical? Two directories of the same
/// name converge; two files are identical when their sizes agree and their
/// contents hashed equal (`files_identical`); anything else is not.
pub open spec fn spec_content_identical(a: Option<Meta>, b: Option<Meta>, files_identical: bool) -> bool {
    match (a, b) {
        (Some(am), Some(bm)) => am.kind == bm.kind && match am.kind {
            EntryKind::Dir => true,
            EntryKind::File => am.size == bm.size && files_identical,
            _ => false,
        },
        _ => false,
    }
}

/// Do two file snapshots need their contents compared to decide identity?
pub open spec fn spec_needs_hash(a: Option<Meta>, b: Option<Meta>) -> bool {
    match (a, b) {
        (Some(am), Some(bm)) => am.kind == EntryKind::File && bm.kind == EntryKind::File && am.size == bm.size,
        _ => false,
    }
}

pub fn content_identical(a_meta: Option<&Meta>, b_meta: Option<&Meta>, files_identical: bool) -> (r: bool)
    ensures
        r == spec_content_identical(
            crate::reconcile::opt_ref_meta(a_meta),
            crate::reconcile::opt_ref_meta(b_meta),
            files_identical,
        ),
{
    match (a_meta, b_meta) {
        (Some(am), Some(bm)) => {
            if am.kind != bm.kind {
                return false;
            }
            match am.kind {
                EntryKind::Dir => true,
                EntryKind::File => am.size == bm.size && files_identical,
                _ => false,
            }
        },
        _ => false,
    }
}

// ---------------------------------------------------------------------------
// Summary, big-delete guard, notes
// ---------------------------------------------------------------------------

pub open spec fn count_action(items: Seq<PlanItem>, a: Action) -> nat
    decreases items.len(),
{
    if items.len() == 0 {
        0
    } else {
        count_action(items.drop_last(), a) + if items.last().action == a { 1nat } else { 0nat }
    }
}

pub open spec fn spec_summary(items: Seq<PlanItem>) -> PlanSummary {
    PlanSummary {
        total: items.len() as usize,
        copy_a_to_b: count_action(items, Action::CopyAtoB) as usize,
        copy_b_to_a: count_action(items, Action::CopyBtoA) as usize,
        delete_a: count_action(items, Action::DeleteA) as usize,
        delete_b: count_action(items, Action::DeleteB) as usize,
        conflicts: count_action(items, Action::Conflict) as usize,
        baseline_only: count_action(items, Action::UpdateBaselineOnly) as usize,
        noop: count_action(items, Action::Noop) as usize,
        skipped: 0,
    }
}

proof fn lemma_counts_sum(items: Seq<PlanItem>)
    ensures
        count_action(items, Action::CopyAtoB) + count_action(items, Action::CopyBtoA) + count_action(items, Action::DeleteA)
            + count_action(items, Action::DeleteB) + count_action(items, Action::Conflict) + count_action(
            items,
            Action::UpdateBaselineOnly,
        ) + count_action(items, Action::Noop) == items.len(),
    decreases items.len(),
{
    if items.len() > 0 {
        lemma_counts_sum(items.drop_last());
    }
}

/// Count every action kind over the plan items.
pub fn summarize(items: &Vec<PlanItem>) -> (r: PlanSummary)
    ensures
        r == spec_summary(items@),
{
    let mut s = PlanSummary::zero();
    let mut i: usize = 0;
    while i < items.len()
        invariant
            i <= items@.len(),
            s == spec_summary(items@.take(i as int)),
        decreases items@.len() - i,
    {
        proof {
            let t = items@.take(i as int + 1);
            assert(t.drop_last() =~= items@.take(i as int));
            lemma_counts_sum(items@.take(i as int));
        }
        s.total = s.total + 1;
        match items[i].action {
            Action::CopyAtoB => s.copy_a_to_b = s.copy_a_to_b + 1,
            Action::CopyBtoA => s.copy_b_to_a = s.copy_b_to_a + 1,
            Action::DeleteA => s.delete_a = s.delete_a + 1,
            Action::DeleteB => s.delete_b = s.delete_b + 1,
            Action::Conflict => s.conflicts = s.conflicts + 1,
            Action::UpdateBaselineOnly => s.baseline_only = s.baseline_only + 1,
            Action::Noop => s.noop = s.noop + 1,
        }
        i = i + 1;
    }
    proof {
        assert(items@.take(i as int) =~= items@);
    }
    s
}

/// The summary's action counts add up to its total.
pub proof fn law_summary_counts_add_up(items: Seq<PlanItem>)
    requires
        items.len() <= usize::MAX,
    ensures
        spec_summary(items).copy_a_to_b + spec_summary(items).copy_b_to_a + spec_summary(items).delete_a
            + spec_summary(items).delete_b + spec_summary(items).conflicts + spec_summary(items).baseline_only
            + spec_summary(items).noop == spec_summary(items).total,
{
    lemma_counts_sum(items);
}

/// `deletions / members` in parts per million, rounded down (100% when there
/// are no members), saturated at `u64::MAX`.
pub open spec fn spec_pct_ppm(deletions: int, members: int) -> int {
    if members == 0 {
        1_000_000
    } else if deletions * 1_000_000 / members > 0xffff_ffff_ffff_ffff {
        0xffff_ffff_ffff_ffff
    } else {
        deletions * 1_000_000 / members
    }
}

/// Does a run with `deletions` deletions out of `members` trip the guard?
pub open spec fn spec_guard_trips(deletions: int, members: int, pct_ppm: int, abs: int) -> bool {
    deletions > 0 && (deletions >= abs || if members == 0 {
        1_000_000 >= pct_ppm
    } else {
        deletions * 1_000_000 >= pct_ppm * members
    })
}

/// The big-delete guard: trips when the deletions reach the absolute
/// threshold or the configured fraction of the members.
pub fn big_delete_guard(pct_ppm: u64, abs: usize, s: &PlanSummary, members: usize) -> (r: Option<BigDeleteWarning>)
    requires
        s.delete_a + s.delete_b <= usize::MAX,
    ensures
        r is Some <==> spec_guard_trips(s.delete_a + s.delete_b, members as int, pct_ppm as int, abs as int),
        r matches Some(w) ==> w.deletions == s.delete_a + s.delete_b && w.total_members == members && w.pct_ppm
            == spec_pct_ppm(w.deletions as int, members as int) && w.threshold_pct_ppm == pct_ppm
            && w.threshold_abs == abs,
{
    let deletions = s.delete_a + s.delete_b;
    if deletions == 0 {
        return None;
    }
    let d128: u128 = deletions as u128;
    let m128: u128 = members as u128;
    let pct: u64;
    let pct_hit: bool;
    if members == 0 {
        pct = 1_000_000;
        pct_hit = 1_000_000 >= pct_ppm;
    } else {
        proof {
            assert(d128 * 1_000_000 <= 0xffff_ffff_ffff_ffff_ffff_ffff_ffff_ffff) by (nonlinear_arith)
                requires d128 <= 0xffff_ffff_ffff_ffff;
        }
        let q: u128 = d128 * 1_000_000 / m128;
        proof {
            assert(pct_ppm as u128 * m128 <= 0xffff_ffff_ffff_ffff_ffff_ffff_ffff_ffff) by (nonlinear_arith)
                requires pct_ppm <= 0xffff_ffff_ffff_ffff, m128 <= 0xffff_ffff_ffff_ffff;
        }
        pct_hit = d128 * 1_000_000 >= (pct_ppm as u128) * m128;
        pct = if q > 0xffff_ffff_ffff_ffff { 0xffff_ffff_ffff_ffff } else { q as u64 };
    }
    if deletions >= abs || pct_hit {
        Some(BigDeleteWarning {
            deletions,
            total_members: members,
            pct_ppm: pct,
            threshold_pct_ppm: pct_ppm,
            threshold_abs: abs,
        })
    } else {
        None
    }
}


pub open spec fn spec_action_note(a: Action) -> Seq<char> {
    match a {
        Action::Noop => "in sync"@,
        Action::CopyAtoB => "copy A → B"@,
        Action::CopyBtoA => "copy B → A"@,
        Action::DeleteA => "delete on A (was removed on B)"@,
        Action::DeleteB => "delete on B (was removed on A)"@,
        Action::UpdateBaselineOnly => "already converged; record baseline"@,
        Action::Conflict => "conflict"@,
    }
}

fn action_note(a: Action) -> (r: String)
    ensures
        r@ == spec_action_note(a),
{
    match a {
        Action::Noop => String::from_str("in sync"),
        Action::CopyAtoB => String::from_str("copy A → B"),
        Action::CopyBtoA => String::from_str("copy B → A"),
        Action::DeleteA => String::from_str("delete on A (was removed on B)"),
        Action::DeleteB => String::from_str("delete on B (was removed on A)"),
        Action::UpdateBaselineOnly => String::from_str("already converged; record baseline"),
        Action::Conflict => String::from_str("conflict"),
    }
}

pub open spec fn spec_conflict_note(ct: ConflictType) -> Seq<char> {
    match ct {
        ConflictType::EditEdit => "both sides edited this file"@,
        ConflictType::CreateCreate => "both sides created this path with different contents"@,
        ConflictType::ModifyDelete => "one side edited it, the other deleted it"@,
        ConflictType::DeleteTypeChange => "one side deleted it, the other replaced file/dir"@,
        ConflictType::ModifyTypeChange => "one side edited it, the other replaced file/dir"@,
        ConflictType::TypeChangeTypeChange => "both sides replaced file/dir differently"@,
        ConflictType::StateDesync => "inconsistent state — rescan recommended"@,
    }
}

fn conflict_note(ct: ConflictType) -> (r: String)
    ensures
        r@ == spec_conflict_note(ct),
{
    match ct {
        ConflictType::EditEdit => String::from_str("both sides edited this file"),
        ConflictType::CreateCreate => String::from_str("both sides created this path with different contents"),
        ConflictType::ModifyDelete => String::from_str("one side edited it, the other deleted it"),
        ConflictType::DeleteTypeChange => String::from_str("one side deleted it, the other replaced file/dir"),
        ConflictType::ModifyTypeChange => String::from_str("one side edited it, the other replaced file/dir"),
        ConflictType::TypeChangeTypeChange => String::from_str("both sides replaced file/dir differently"),
        ConflictType::StateDesync => String::from_str("inconsistent state — rescan recommended"),
    }
}

pub open spec fn collision_note() -> Seq<char> {
    "case-only name collision on a case-insensitive filesystem"@
}

// ---------------------------------------------------------------------------
// The plan
// ---------------------------------------------------------------------------

pub struct PlanInputs<'a> {
    pub cfg: &'a JobConfig,
    pub a: &'a EntryMap,
    pub b: &'a EntryMap,
    pub base: &'a Baseline,
    pub status: BaselineStatusKind,
    pub gran_ns: i64,
    pub warnings: Vec<String>,
    /// Set when a scan reported read errors. While true, no deletion is
    /// propagated: an unreadable path must never be mistaken for a removal.
    pub suppress_deletes: bool,
}

/// What the filesystem reports about paths the scans alone cannot decide.
pub struct DiskFacts {
    /// Paths absent from scan A that still exist on disk under root A.
    pub present_a: KeySet,
    /// Paths absent from scan B that still exist on disk under root B.
    pub present_b: KeySet,
    /// Paths whose two file versions hashed to the same content.
    pub identical_files: KeySet,
}

impl DiskFacts {
    pub open spec fn wf(&self) -> bool {
        self.present_a.wf() && self.present_b.wf() && self.identical_files.wf()
    }
}

impl<'a> PlanInputs<'a> {
    pub open spec fn wf(&self) -> bool {
        self.a.wf() && self.b.wf() && self.base.wf()
    }
}

pub open spec fn lookup(m: Map<Seq<char>, Meta>, k: Seq<char>) -> Option<Meta> {
    if m.contains_key(k) {
        Some(m[k])
    } else {
        None
    }
}

/// Deletes are blocked when the baseline is untrustworthy or a scan failed.
pub open spec fn spec_block_deletes(inp: &PlanInputs) -> bool {
    inp.status != BaselineStatusKind::Present || inp.suppress_deletes
}

pub open spec fn in_universe(inp: &PlanInputs, k: Seq<char>) -> bool {
    inp.a.map().contains_key(k) || inp.b.map().contains_key(k) || inp.base.view().contains_key(k)
}

/// A path is a sync member unless a side's scan missed it while it still
/// exists on that side's disk (it was filtered, not deleted).
pub open spec fn is_member(inp: &PlanInputs, facts: &DiskFacts, k: Seq<char>) -> bool {
    &&& in_universe(inp, k)
    &&& !(!inp.a.map().contains_key(k) && facts.present_a.map().contains_key(k))
    &&& !(!inp.b.map().contains_key(k) && facts.present_b.map().contains_key(k))
}

pub open spec fn a_change_of(inp: &PlanInputs, k: Seq<char>) -> ChangeKind {
    spec_classify(lookup(inp.a.map(), k), lookup(inp.base.view(), k), inp.gran_ns as int)
}

pub open spec fn b_change_of(inp: &PlanInputs, k: Seq<char>) -> ChangeKind {
    spec_classify(lookup(inp.b.map(), k), lookup(inp.base.view(), k), inp.gran_ns as int)
}

/// The decision for one path before case-collision detection.
pub open spec fn pre_decision(inp: &PlanInputs, facts: &DiskFacts, k: Seq<char>) -> Decision {
    let ac = a_change_of(inp, k);
    let bc = b_change_of(inp, k);
    let identical = spec_needs_identity(ac, bc) && spec_content_identical(
        lookup(inp.a.map(), k),
        lookup(inp.b.map(), k),
        facts.identical_files.map().contains_key(k),
    );
    spec_clamp(inp.cfg.mode, spec_reconcile(ac, bc, identical), ac, bc, spec_block_deletes(inp))
}

pub open spec fn actionable(a: Action) -> bool {
    a != Action::Noop && a != Action::UpdateBaselineOnly
}

/// Two distinct actionable paths that fold to the same name would overwrite
/// each other on a case-insensitive destination.
pub open spec fn collides(inp: &PlanInputs, facts: &DiskFacts, k: Seq<char>) -> bool {
    actionable(pre_decision(inp, facts, k).action) && exists|k2: Seq<char>|
        #![trigger lowercase(k2)]
        is_member(inp, facts, k2) && k2 != k && actionable(pre_decision(inp, facts, k2).action)
            && lowercase(k2) == lowercase(k)
}

pub open spec fn final_decision(inp: &PlanInputs, facts: &DiskFacts, k: Seq<char>) -> Decision {
    if collides(inp, facts, k) {
        conflict_of(ConflictType::StateDesync)
    } else {
        pre_decision(inp, facts, k)
    }
}

pub open spec fn note_of(inp: &PlanInputs, facts: &DiskFacts, k: Seq<char>) -> Seq<char> {
    if collides(inp, facts, k) {
        collision_note()
    } else {
        match pre_decision(inp, facts, k).conflict {
            Some(ct) => spec_conflict_note(ct),
            None => spec_action_note(pre_decision(inp, facts, k).action),
        }
    }
}

pub open spec fn default_of(c: Option<ConflictType>) -> Option<Resolution> {
    match c {
        Some(ct) => Some(spec_default_resolution(ct)),
        None => None,
    }
}

pub open spec fn options_of(c: Option<ConflictType>) -> Seq<Resolution> {
    match c {
        Some(ct) => spec_resolution_options(ct),
        None => Seq::empty(),
    }
}

/// Everything one plan row states about its path.
pub open spec fn item_matches(inp: &PlanInputs, facts: &DiskFacts, it: PlanItem) -> bool {
    let k = it.path@;
    let d = final_decision(inp, facts, k);
    &&& it.a == lookup(inp.a.map(), k)
    &&& it.b == lookup(inp.b.map(), k)
    &&& it.base == lookup(inp.base.view(), k)
    &&& it.a_change == a_change_of(inp, k)
    &&& it.b_change == b_change_of(inp, k)
    &&& it.action == d.action
    &&& it.conflict == d.conflict
    &&& it.default_resolution == default_of(d.conflict)
    &&& it.resolution_options@ == options_of(d.conflict)
    &&& it.note@ == note_of(inp, facts, k)
}

pub open spec fn item_paths(items: Seq<PlanItem>) -> Seq<Seq<char>> {
    Seq::new(items.len(), |i: int| items[i].path@)
}

/// The big-delete members: the larger of the two scans.
pub open spec fn members_count(inp: &PlanInputs) -> int {
    if inp.a.key_seq().len() >= inp.b.key_seq().len() {
        inp.a.key_seq().len() as int
    } else {
        inp.b.key_seq().len() as int
    }
}

fn opt_default(c: Option<ConflictType>) -> (r: Option<Resolution>)
    ensures
        r == default_of(c),
{
    match c {
        Some(ct) => Some(default_resolution(ct)),
        None => None,
    }
}

fn opt_options(c: Option<ConflictType>) -> (r: Vec<Resolution>)
    ensures
        r@ == options_of(c),
{
    match c {
        Some(ct) => resolution_options(ct),
        None => Vec::new(),
    }
}

fn lookup_meta<'b>(m: &'b EntryMap, key: &str) -> (r: Option<&'b Meta>)
    requires
        m.wf(),
    ensures
        crate::reconcile::opt_ref_meta(r) == lookup(m.map(), key@),
{
    m.get(key)
}

/// The per-path decision before case-collision detection.
fn decide(inp: &PlanInputs, facts: &DiskFacts, key: &str, block_deletes: bool) -> (r: Decision)
    requires
        inp.wf(),
        facts.wf(),
        block_deletes == spec_block_deletes(inp),
    ensures
        r == pre_decision(inp, facts, key@),
{
    let a_meta = lookup_meta(inp.a, key);
    let b_meta = lookup_meta(inp.b, key);
    let base_meta = lookup_meta(&inp.base.entries, key);
    let a_change = classify_change(a_meta, base_meta, inp.gran_ns);
    let b_change = classify_change(b_meta, base_meta, inp.gran_ns);
    let identical = needs_identity(a_change, b_change) && content_identical(
        a_meta,
        b_meta,
        facts.identical_files.get(key).is_some(),
    );
    let reconciled = reconcile(a_change, b_change, identical);
    clamp_decision(inp.cfg.mode, reconciled, a_change, b_change, block_deletes)
}

/// Every path that is in the universe, sorted and without duplicates.
fn universe_keys(inp: &PlanInputs) -> (r: Vec<String>)
    requires
        inp.wf(),
    ensures
        strictly_sorted(views(r@)),
        forall|k: Seq<char>| #[trigger] views(r@).contains(k) <==> in_universe(inp, k),
{
    proof {
        inp.a.lemma_view();
        inp.b.lemma_view();
        inp.base.entries.lemma_view();
    }
    let ka = inp.a.keys();
    let kb = inp.b.keys();
    let kbase = inp.base.entries.keys();
    proof {
        assert(views(ka@) =~= inp.a.key_seq());
        assert(views(kb@) =~= inp.b.key_seq());
        assert(views(kbase@) =~= inp.base.entries.key_seq());
    }
    let u1 = sorted_union(&ka, &kb);
    sorted_union(&u1, &kbase)
}

/// Build one plan row for `key` with its final decision.
fn make_item(inp: &PlanInputs, facts: &DiskFacts, key: &String, d: Decision, collided: bool, pre: Decision) -> (r: PlanItem)
    requires
        inp.wf(),
        facts.wf(),
        pre == pre_decision(inp, facts, key@),
        collided == collides(inp, facts, key@),
        d == final_decision(inp, facts, key@),
    ensures
        item_matches(inp, facts, r),
        r.path@ == key@,
{
    let a_meta = lookup_meta(inp.a, key);
    let b_meta = lookup_meta(inp.b, key);
    let base_meta = lookup_meta(&inp.base.entries, key);
    let a_change = classify_change(a_meta, base_meta, inp.gran_ns);
    let b_change = classify_change(b_meta, base_meta, inp.gran_ns);
    let note = if collided {
        String::from_str("case-only name collision on a case-insensitive filesystem")
    } else {
        match pre.conflict {
            Some(ct) => conflict_note(ct),
            None => action_note(pre.action),
        }
    };
    PlanItem {
        path: key.clone(),
        action: d.action,
        conflict: d.conflict,
        a_change,
        b_change,
        a: duplicate_opt(a_meta),
        b: duplicate_opt(b_meta),
        base: duplicate_opt(base_meta),
        default_resolution: opt_default(d.conflict),
        resolution_options: opt_options(d.conflict),
        note,
    }
}

/// Build the plan: reconcile every member path, apply the mode and the
/// suppression clamps, flag case-only collisions, then summarize and run the
/// big-delete guard.
pub fn build_plan(inp: PlanInputs, facts: &DiskFacts) -> (r: SyncPlan)
    requires
        inp.wf(),
        facts.wf(),
    ensures
        strictly_sorted(item_paths(r.items@)),
        forall|i: int| 0 <= i < r.items@.len() ==> is_member(&inp, facts, #[trigger] r.items@[i].path@)
            && item_matches(&inp, facts, r.items@[i]),
        forall|k: Seq<char>| is_member(&inp, facts, k) ==> #[trigger] item_paths(r.items@).contains(k),
        r.summary == spec_summary(r.items@),
        r.big_delete is Some <==> spec_guard_trips(
            r.summary.delete_a + r.summary.delete_b,
            members_count(&inp),
            inp.cfg.big_delete_pct as int,
            inp.cfg.big_delete_abs as int,
        ),
        r.big_delete matches Some(w) ==> w.deletions == r.summary.delete_a + r.summary.delete_b
            && w.total_members == members_count(&inp) && w.threshold_pct_ppm == inp.cfg.big_delete_pct
            && w.threshold_abs == inp.cfg.big_delete_abs && w.pct_ppm == spec_pct_ppm(
            w.deletions as int,
            members_count(&inp),
        ),
        r.root_a@ == inp.cfg.root_a@,
        r.root_b@ == inp.cfg.root_b@,
        r.baseline_status == inp.status,
        r.warnings == inp.warnings,
{
    let block_deletes = !matches!(inp.status, BaselineStatusKind::Present) || inp.suppress_deletes;
    let universe = universe_keys(&inp);
    let ghost vu = views(universe@);

    // Pass 1: members and their decisions before collision detection.
    let mut members: Vec<String> = Vec::new();
    let mut pres: Vec<Decision> = Vec::new();
    let ghost mut pos: Seq<int> = Seq::empty();
    let mut idx: usize = 0;
    while idx < universe.len()
        invariant
            idx <= universe@.len(),
            vu == views(universe@),
            strictly_sorted(vu),
            forall|k: Seq<char>| #[trigger] vu.contains(k) <==> in_universe(&inp, k),
            inp.wf(),
            facts.wf(),
            block_deletes == spec_block_deletes(&inp),
            members@.len() == pres@.len(),
            pos.len() == members@.len(),
            forall|t: int| 0 <= t < pos.len() ==> 0 <= #[trigger] pos[t] < idx && views(members@)[t] == vu[pos[t]],
            forall|t: int, u: int| 0 <= t < u < pos.len() ==> #[trigger] pos[t] < #[trigger] pos[u],
            forall|t: int| 0 <= t < members@.len() ==> is_member(&inp, facts, #[trigger] views(members@)[t])
                && pres@[t] == pre_decision(&inp, facts, views(members@)[t]),
            forall|j: int| 0 <= j < idx && is_member(&inp, facts, #[trigger] vu[j]) ==> views(members@).contains(vu[j]),
        decreases universe@.len() - idx,
    {
        let key = &universe[idx];
        let a_missing = inp.a.get(key).is_none();
        let b_missing = inp.b.get(key).is_none();
        let filtered = (a_missing && facts.present_a.get(key).is_some()) || (b_missing && facts.present_b.get(key).is_some());
        proof {
            assert(vu[idx as int] == key@);
            assert(vu.contains(key@));
        }
        if !filtered {
            let d = decide(&inp, facts, key, block_deletes);
            let ghost before = views(members@);
            members.push(key.clone());
            pres.push(d);
            proof {
                pos = pos.push(idx as int);
                assert(views(members@) =~= before.push(key@));
                assert forall|j: int| 0 <= j < idx + 1 && is_member(&inp, facts, #[trigger] vu[j]) implies views(members@).contains(vu[j]) by {
                    if j < idx {
                        let t = before.index_of(vu[j]);
                        assert(views(members@)[t] == vu[j]);
                    } else {
                        assert(views(members@)[members@.len() - 1] == vu[j]);
                    }
                }
            }
        }
        idx = idx + 1;
    }
    let ghost vm = views(members@);
    proof {
        assert forall|t: int, u: int| 0 <= t < u < vm.len() implies seq_lt(#[trigger] vm[t], #[trigger] vm[u]) by {
            assert(pos[t] < pos[u]);
        }
        assert forall|k: Seq<char>| is_member(&inp, facts, k) implies #[trigger] vm.contains(k) by {
            assert(in_universe(&inp, k));
            assert(vu.contains(k));
            let j = vu.index_of(k);
            assert(vu[j] == k);
            assert(is_member(&inp, facts, vu[j]));
        }
    }

    // Pass 2: case-only collisions among actionable members.
    let mut folded: Vec<String> = Vec::new();
    let mut t: usize = 0;
    while t < members.len()
        invariant
            t <= members@.len(),
            folded@.len() == t,
            forall|u: int| 0 <= u < t ==> #[trigger] folded@[u]@ == lowercase(members@[u]@),
        decreases members@.len() - t,
    {
        folded.push(case_fold(&members[t]));
        t = t + 1;
    }
    let mut collided: Vec<bool> = Vec::new();
    let mut t: usize = 0;
    while t < members.len()
        invariant
            t <= members@.len(),
            vm == views(members@),
            strictly_sorted(vm),
            folded@.len() == members@.len(),
            members@.len() == pres@.len(),
            forall|u: int| 0 <= u < members@.len() ==> #[trigger] folded@[u]@ == lowercase(members@[u]@),
            forall|u: int| 0 <= u < members@.len() ==> is_member(&inp, facts, #[trigger] vm[u])
                && pres@[u] == pre_decision(&inp, facts, vm[u]),
            forall|k: Seq<char>| is_member(&inp, facts, k) ==> #[trigger] vm.contains(k),
            collided@.len() == t,
            forall|u: int| 0 <= u < t ==> #[trigger] collided@[u] == collides(&inp, facts, vm[u]),
        decreases members@.len() - t,
    {
        let mut hit = false;
        if actionable_exec(pres[t].action) {
            let mut j: usize = 0;
            while j < members.len()
                invariant
                    j <= members@.len(),
                    t < members@.len(),
                    vm == views(members@),
                    folded@.len() == members@.len(),
                    members@.len() == pres@.len(),
                    forall|u: int| 0 <= u < members@.len() ==> #[trigger] folded@[u]@ == lowercase(members@[u]@),
                    forall|u: int| 0 <= u < members@.len() ==> pres@[u] == pre_decision(&inp, facts, #[trigger] vm[u]),
                    hit <==> exists|u: int| 0 <= u < j && u != t && #[trigger] actionable(pres@[u].action)
                        && lowercase(vm[u]) == lowercase(vm[t as int]),
                decreases members@.len() - j,
            {
                if j != t && actionable_exec(pres[j].action) && folded[j] == folded[t] {
                    hit = true;
                }
                j = j + 1;
            }
            proof {
                let k = vm[t as int];
                if hit {
                    let u = choose|u: int| 0 <= u < j && u != t && #[trigger] actionable(pres@[u].action)
                        && lowercase(vm[u]) == lowercase(vm[t as int]);
                    crate::keys::lemma_sorted_distinct(vm, u, t as int);
                    assert(lowercase(vm[u]) == lowercase(k));
                }
                if collides(&inp, facts, k) {
                    let k2 = choose|k2: Seq<char>|
                        #![trigger lowercase(k2)]
                        is_member(&inp, facts, k2) && k2 != k && actionable(pre_decision(&inp, facts, k2).action)
                            && lowercase(k2) == lowercase(k);
                    assert(vm.contains(k2));
                    let u = vm.index_of(k2);
                    assert(vm[u] == k2);
                    assert(actionable(pres@[u].action));
                }
            }
        }
        collided.push(hit);
        t = t + 1;
    }

    // Pass 3: the plan rows.
    let mut items: Vec<PlanItem> = Vec::new();
    let mut t: usize = 0;
    while t < members.len()
        invariant
            t <= members@.len(),
            vm == views(members@),
            inp.wf(),
            facts.wf(),
            members@.len() == pres@.len(),
            collided@.len() == members@.len(),
            forall|u: int| 0 <= u < members@.len() ==> pres@[u] == pre_decision(&inp, facts, #[trigger] vm[u]),
            forall|u: int| 0 <= u < members@.len() ==> #[trigger] collided@[u] == collides(&inp, facts, vm[u]),
            items@.len() == t,
            forall|u: int| 0 <= u < t ==> #[trigger] items@[u].path@ == vm[u] && item_matches(&inp, facts, items@[u]),
        decreases members@.len() - t,
    {
        let d = if collided[t] { Decision::conflict(ConflictType::StateDesync) } else { pres[t] };
        let it = make_item(&inp, facts, &members[t], d, collided[t], pres[t]);
        items.push(it);
        t = t + 1;
    }
    proof {
        assert(item_paths(items@) =~= vm);
    }

    let summary = summarize(&items);
    proof {
        law_summary_counts_add_up(items@);
    }
    let na = inp.a.len();
    let nb = inp.b.len();
    let members_n = if na >= nb { na } else { nb };
    let big_delete = big_delete_guard(inp.cfg.big_delete_pct, inp.cfg.big_delete_abs, &summary, members_n);
    SyncPlan {
        root_a: inp.cfg.root_a.clone(),
        root_b: inp.cfg.root_b.clone(),
        items,
        summary,
        baseline_status: inp.status,
        big_delete,
        warnings: inp.warnings,
    }
}

fn actionable_exec(a: Action) -> (r: bool)
    ensures
        r == actionable(a),
{
    !matches!(a, Action::Noop | Action::UpdateBaselineOnly)
}


/// Deletion safety of the whole plan: on a first sync, with a corrupt
/// baseline, or after a scan error, no row of the plan deletes anything.
pub proof fn law_untrusted_plan_never_deletes(inp: &PlanInputs, facts: &DiskFacts, k: Seq<char>)
    requires
        spec_block_deletes(inp),
    ensures
        final_decision(inp, facts, k).action != Action::DeleteA,
        final_decision(inp, facts, k).action != Action::DeleteB,
{
    let ac = a_change_of(inp, k);
    let bc = b_change_of(inp, k);
    let identical = spec_needs_identity(ac, bc) && spec_content_identical(
        lookup(inp.a.map(), k),
        lookup(inp.b.map(), k),
        facts.identical_files.map().contains_key(k),
    );
    law_blocked_clamp_never_deletes(inp.cfg.mode, spec_reconcile(ac, bc, identical), ac, bc);
}

/// The filtered-file guard: a path missing from a side's scan while still on
/// that side's disk is not a sync member, so no row touches it.
pub proof fn law_filtered_paths_are_left_alone(inp: &PlanInputs, facts: &DiskFacts, k: Seq<char>)
    requires
        (!inp.a.map().contains_key(k) && facts.present_a.map().contains_key(k))
            || (!inp.b.map().contains_key(k) && facts.present_b.map().contains_key(k)),
    ensures
        !is_member(inp, facts, k),
{
}

/// In two-way mode a row deletes a side only when that side is unchanged
/// since the baseline and the other side deleted the path.
pub proof fn law_twoway_deletes_only_unchanged(inp: &PlanInputs, facts: &DiskFacts, k: Seq<char>)
    requires
        inp.cfg.mode == SyncMode::TwoWay,
    ensures
        final_decision(inp, facts, k).action == Action::DeleteA ==> a_change_of(inp, k) == ChangeKind::Unchanged
            && b_change_of(inp, k) == ChangeKind::Deleted,
        final_decision(inp, facts, k).action == Action::DeleteB ==> b_change_of(inp, k) == ChangeKind::Unchanged
            && a_change_of(inp, k) == ChangeKind::Deleted,
{
    let ac = a_change_of(inp, k);
    let bc = b_change_of(inp, k);
    let identical = spec_needs_identity(ac, bc) && spec_content_identical(
        lookup(inp.a.map(), k),
        lookup(inp.b.map(), k),
        facts.identical_files.map().contains_key(k),
    );
    crate::reconcile::law_table_never_deletes_live_data(ac, bc, identical);
}

/// Which paths need the filesystem consulted before a plan can be built.
pub struct ProbeRequests {
    /// Universe paths absent from scan A: check whether they exist on disk A.
    pub check_a: Vec<String>,
    /// Universe paths absent from scan B: check whether they exist on disk B.
    pub check_b: Vec<String>,
    /// Paths whose two same-size file versions must be hashed and compared.
    pub hash: Vec<String>,
}

/// List the disk checks and content comparisons `build_plan` depends on.
pub fn probe_requests(inp: &PlanInputs) -> (r: ProbeRequests)
    requires
        inp.wf(),
    ensures
        strictly_sorted(views(r.check_a@)),
        strictly_sorted(views(r.check_b@)),
        strictly_sorted(views(r.hash@)),
        forall|k: Seq<char>| #[trigger] views(r.check_a@).contains(k) <==> in_universe(inp, k) && !inp.a.map().contains_key(k),
        forall|k: Seq<char>| #[trigger] views(r.check_b@).contains(k) <==> in_universe(inp, k) && !inp.b.map().contains_key(k),
        forall|k: Seq<char>| #[trigger] views(r.hash@).contains(k) <==> in_universe(inp, k) && spec_needs_identity(
            a_change_of(inp, k),
            b_change_of(inp, k),
        ) && spec_needs_hash(lookup(inp.a.map(), k), lookup(inp.b.map(), k)),
{
    let universe = universe_keys(inp);
    let ghost vu = views(universe@);
    let mut check_a: Vec<String> = Vec::new();
    let mut check_b: Vec<String> = Vec::new();
    let mut hash: Vec<String> = Vec::new();
    let mut idx: usize = 0;
    while idx < universe.len()
        invariant
            idx <= universe@.len(),
            vu == views(universe@),
            strictly_sorted(vu),
            forall|k: Seq<char>| #[trigger] vu.contains(k) <==> in_universe(inp, k),
            inp.wf(),
            strictly_sorted(views(check_a@)),
            strictly_sorted(views(check_b@)),
            strictly_sorted(views(hash@)),
            forall|t: int| #![trigger views(check_a@)[t]] 0 <= t < check_a@.len() ==> exists|j: int| #![trigger vu[j]] 0 <= j < idx && vu[j] == views(check_a@)[t],
            forall|t: int| #![trigger views(check_b@)[t]] 0 <= t < check_b@.len() ==> exists|j: int| #![trigger vu[j]] 0 <= j < idx && vu[j] == views(check_b@)[t],
            forall|t: int| #![trigger views(hash@)[t]] 0 <= t < hash@.len() ==> exists|j: int| #![trigger vu[j]] 0 <= j < idx && vu[j] == views(hash@)[t],
            forall|k: Seq<char>| #[trigger] views(check_a@).contains(k) <==> vu.take(idx as int).contains(k) && !inp.a.map().contains_key(k),
            forall|k: Seq<char>| #[trigger] views(check_b@).contains(k) <==> vu.take(idx as int).contains(k) && !inp.b.map().contains_key(k),
            forall|k: Seq<char>| #[trigger] views(hash@).contains(k) <==> vu.take(idx as int).contains(k) && spec_needs_identity(
                a_change_of(inp, k),
                b_change_of(inp, k),
            ) && spec_needs_hash(lookup(inp.a.map(), k), lookup(inp.b.map(), k)),
        decreases universe@.len() - idx,
    {
        let key = &universe[idx];
        let ghost k = key@;
        let a_meta = lookup_meta(inp.a, key);
        let b_meta = lookup_meta(inp.b, key);
        let base_meta = lookup_meta(&inp.base.entries, key);
        let ghost old_a = views(check_a@);
        let ghost old_b = views(check_b@);
        let ghost old_h = views(hash@);
        proof {
            assert(vu[idx as int] == k);
            assert(vu.take(idx as int + 1) =~= vu.take(idx as int).push(k));
            // k is above everything collected so far
            assert forall|t: int| 0 <= t < old_a.len() implies seq_lt(#[trigger] old_a[t], k) by {
                let j = choose|j: int| #![trigger vu[j]] 0 <= j < idx && vu[j] == old_a[t];
            }
            assert forall|t: int| 0 <= t < old_b.len() implies seq_lt(#[trigger] old_b[t], k) by {
                let j = choose|j: int| #![trigger vu[j]] 0 <= j < idx && vu[j] == old_b[t];
            }
            assert forall|t: int| 0 <= t < old_h.len() implies seq_lt(#[trigger] old_h[t], k) by {
                let j = choose|j: int| #![trigger vu[j]] 0 <= j < idx && vu[j] == old_h[t];
            }
            if vu.take(idx as int).contains(k) {
                let j = vu.take(idx as int).index_of(k);
                crate::keys::lemma_sorted_distinct(vu, j, idx as int);
            }
        }
        if a_meta.is_none() {
            check_a.push(key.clone());
        }
        if b_meta.is_none() {
            check_b.push(key.clone());
        }
        let a_change = classify_change(a_meta, base_meta, inp.gran_ns);
        let b_change = classify_change(b_meta, base_meta, inp.gran_ns);
        let wants_hash = match (a_meta, b_meta) {
            (Some(am), Some(bm)) => am.is_file() && bm.is_file() && am.size == bm.size,
            _ => false,
        };
        if needs_identity(a_change, b_change) && wants_hash {
            hash.push(key.clone());
        }
        proof {
            let na = views(check_a@);
            let nb = views(check_b@);
            let nh = views(hash@);
            assert(na =~= old_a || na =~= old_a.push(k));
            assert(nb =~= old_b || nb =~= old_b.push(k));
            assert(nh =~= old_h || nh =~= old_h.push(k));
            let tk = vu.take(idx as int + 1);
            assert(tk.contains(k)) by {
                assert(tk[idx as int] == k);
            }
            assert(!old_a.contains(k)) by {
                if old_a.contains(k) {
                    let t = old_a.index_of(k);
                    crate::keys::lemma_lt_irreflexive(k);
                }
            }
            assert(!old_b.contains(k)) by {
                if old_b.contains(k) {
                    let t = old_b.index_of(k);
                    crate::keys::lemma_lt_irreflexive(k);
                }
            }
            assert(!old_h.contains(k)) by {
                if old_h.contains(k) {
                    let t = old_h.index_of(k);
                    crate::keys::lemma_lt_irreflexive(k);
                }
            }
            assert forall|x: Seq<char>| x != k implies (tk.contains(x) <==> vu.take(idx as int).contains(x)) by {
                if tk.contains(x) {
                    let q = tk.index_of(x);
                    assert(vu.take(idx as int)[q] == x);
                }
                if vu.take(idx as int).contains(x) {
                    let q = vu.take(idx as int).index_of(x);
                    assert(tk[q] == x);
                }
            }
            assert forall|x: Seq<char>| #[trigger] na.contains(x) <==> tk.contains(x) && !inp.a.map().contains_key(x) by {
                if x != k {
                    if na.contains(x) {
                        let q = na.index_of(x);
                        if q < old_a.len() {
                            assert(old_a[q] == x);
                        }
                    }
                    if old_a.contains(x) {
                        let q = old_a.index_of(x);
                        assert(na[q] == x);
                    }
                } else {
                    if a_meta.is_none() {
                        assert(na[na.len() - 1] == k);
                    }
                }
            }
            assert forall|x: Seq<char>| #[trigger] nb.contains(x) <==> tk.contains(x) && !inp.b.map().contains_key(x) by {
                if x != k {
                    if nb.contains(x) {
                        let q = nb.index_of(x);
                        if q < old_b.len() {
                            assert(old_b[q] == x);
                        }
                    }
                    if old_b.contains(x) {
                        let q = old_b.index_of(x);
                        assert(nb[q] == x);
                    }
                } else {
                    if b_meta.is_none() {
                        assert(nb[nb.len() - 1] == k);
                    }
                }
            }
            assert forall|x: Seq<char>| #[trigger] nh.contains(x) <==> tk.contains(x) && spec_needs_identity(
                a_change_of(inp, x),
                b_change_of(inp, x),
            ) && spec_needs_hash(lookup(inp.a.map(), x), lookup(inp.b.map(), x)) by {
                if x != k {
                    if nh.contains(x) {
                        let q = nh.index_of(x);
                        if q < old_h.len() {
                            assert(old_h[q] == x);
                        }
                    }
                    if old_h.contains(x) {
                        let q = old_h.index_of(x);
                        assert(nh[q] == x);
                    }
                } else {
                    if nh.len() > old_h.len() {
                        assert(nh[nh.len() - 1] == k);
                    }
                }
            }
            assert forall|t: int| #![trigger na[t]] 0 <= t < na.len() implies exists|j: int| #![trigger vu[j]] 0 <= j < idx + 1 && vu[j] == na[t] by {
                if t == old_a.len() {
                    assert(vu[idx as int] == na[t]);
                } else {
                    let j = choose|j: int| #![trigger vu[j]] 0 <= j < idx && vu[j] == old_a[t];
                    assert(vu[j] == na[t]);
                }
            }
            assert forall|t: int| #![trigger nb[t]] 0 <= t < nb.len() implies exists|j: int| #![trigger vu[j]] 0 <= j < idx + 1 && vu[j] == nb[t] by {
                if t == old_b.len() {
                    assert(vu[idx as int] == nb[t]);
                } else {
                    let j = choose|j: int| #![trigger vu[j]] 0 <= j < idx && vu[j] == old_b[t];
                    assert(vu[j] == nb[t]);
                }
            }
            assert forall|t: int| #![trigger nh[t]] 0 <= t < nh.len() implies exists|j: int| #![trigger vu[j]] 0 <= j < idx + 1 && vu[j] == nh[t] by {
                if t == old_h.len() {
                    assert(vu[idx as int] == nh[t]);
                } else {
                    let j = choose|j: int| #![trigger vu[j]] 0 <= j < idx && vu[j] == old_h[t];
                    assert(vu[j] == nh[t]);
                }
            }
        }
        idx = idx + 1;
    }
    proof {
        assert(vu.take(idx as int) =~= vu);
    }
    ProbeRequests { check_a, check_b, hash }
}

/// The two thresholds of the big-delete guard act independently. Any
/// positive number of deletions at or above the absolute threshold trips it,
/// whatever the member count and the fraction. So does reaching the
/// fraction of a non-empty member set (or any deletion at all when there
/// are no members and the fraction is at most 100%). No deletions never trip
/// it. Below the absolute threshold with members present, it trips only at
/// the fraction.
pub proof fn law_big_delete_thresholds(deletions: int, members: int, pct_ppm: int, abs: int)
    requires
        deletions >= 0,
        members >= 0,
        pct_ppm >= 0,
    ensures
        deletions > 0 && deletions >= abs ==> spec_guard_trips(deletions, members, pct_ppm, abs),
        deletions > 0 && members > 0 && deletions * 1_000_000 >= pct_ppm * members ==> spec_guard_trips(
            deletions,
            members,
            pct_ppm,
            abs,
        ),
        deletions > 0 && members == 0 && pct_ppm <= 1_000_000 ==> spec_guard_trips(deletions, members, pct_ppm, abs),
        deletions == 0 ==> !spec_guard_trips(deletions, members, pct_ppm, abs),
        deletions < abs && members > 0 && deletions * 1_000_000 < pct_ppm * members ==> !spec_guard_trips(
            deletions,
            members,
            pct_ppm,
            abs,
        ),
{
}

} // verus!
