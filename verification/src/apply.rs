//! Executing a resolved plan, item by item: what each item does once its
//! conflict is resolved, the order in which items run (creates parents
//! first, deletes children first), the pre-checks that skip an item whose
//! live state drifted since the preview, and the report of what happened.
//! The filesystem work itself is done by the caller between these steps.
use crate::baseline::Baseline;
use crate::entries::KeyMap;
use crate::error::SyncError;
use crate::fmt::{decimal, push_decimal, push_str, string_from_chars};
use crate::fsops::{meta_matches, spec_meta_matches};
use crate::keys::{chars_of, key_order, lemma_lt_asymmetric, lemma_lt_irreflexive, lemma_lt_total, lemma_lt_transitive, seq_lt, KeyOrder};
use crate::model::{Action, ApplyReport, ChangeKind, EntryKind, ItemOutcome, ItemStatus, Meta, PlanItem, Resolution};
use crate::pathutil::{representable_problem, validate_representable};
use crate::reconcile::opt_ref_meta;
use vstd::prelude::*;

verus! {

/// Copy direction.
#[derive(Clone, Copy, Debug, PartialEq, Eq, Structural)]
pub enum Dir {
    AtoB,
    BtoA,
}

#[derive(Clone, Copy, Debug, PartialEq, Eq, Structural)]
pub enum Side {
    A,
    B,
}

/// What an item actually does once conflicts are resolved.
#[derive(Clone, Copy, Debug, PartialEq, Eq, Structural)]
pub enum Eff {
    Noop,
    BaselineOnly,
    Copy(Dir),
    Delete(Side),
    KeepBoth,
    SkipConflict,
}

pub open spec fn mtime_or_min(m: Option<Meta>) -> int {
    match m {
        Some(x) => x.mtime_ns as int,
        None => i64::MIN as int,
    }
}

/// The effect of resolving a conflicted item with `res`.
pub open spec fn spec_resolve_conflict(item: PlanItem, res: Resolution) -> Eff {
    match res {
        Resolution::Skip => Eff::SkipConflict,
        Resolution::KeepBoth => Eff::KeepBoth,
        Resolution::KeepA => Eff::Copy(Dir::AtoB),
        Resolution::KeepB => Eff::Copy(Dir::BtoA),
        Resolution::KeepNewer => if mtime_or_min(item.a) >= mtime_or_min(item.b) {
            Eff::Copy(Dir::AtoB)
        } else {
            Eff::Copy(Dir::BtoA)
        },
        Resolution::KeepModified | Resolution::KeepTypeChanged => if item.a_change == ChangeKind::Modified
            || item.a_change == ChangeKind::TypeChanged || item.a_change == ChangeKind::Created {
            Eff::Copy(Dir::AtoB)
        } else {
            Eff::Copy(Dir::BtoA)
        },
        Resolution::PropagateDelete => if item.a_change == ChangeKind::Deleted {
            Eff::Delete(Side::B)
        } else {
            Eff::Delete(Side::A)
        },
    }
}

/// The resolution that applies to a conflicted item: the user's choice for
/// its path, else the item's default, else `Skip`.
pub open spec fn chosen_resolution(item: PlanItem, chosen: Map<Seq<char>, Resolution>) -> Resolution {
    if chosen.contains_key(item.path@) {
        chosen[item.path@]
    } else {
        match item.default_resolution {
            Some(r) => r,
            None => Resolution::Skip,
        }
    }
}

/// The effect of an item under the user's resolutions.
pub open spec fn spec_effect(item: PlanItem, chosen: Map<Seq<char>, Resolution>) -> Eff {
    match item.action {
        Action::Noop => Eff::Noop,
        Action::UpdateBaselineOnly => Eff::BaselineOnly,
        Action::CopyAtoB => Eff::Copy(Dir::AtoB),
        Action::CopyBtoA => Eff::Copy(Dir::BtoA),
        Action::DeleteA => Eff::Delete(Side::A),
        Action::DeleteB => Eff::Delete(Side::B),
        Action::Conflict => spec_resolve_conflict(item, chosen_resolution(item, chosen)),
    }
}

/// The effect of resolving a conflicted item with `res`.
pub fn resolve_conflict(item: &PlanItem, res: Resolution) -> (r: Eff)
    ensures
        r == spec_resolve_conflict(*item, res),
{
    match res {
        Resolution::Skip => Eff::SkipConflict,
        Resolution::KeepBoth => Eff::KeepBoth,
        Resolution::KeepA => Eff::Copy(Dir::AtoB),
        Resolution::KeepB => Eff::Copy(Dir::BtoA),
        Resolution::KeepNewer => {
            let am = match &item.a {
                Some(m) => m.mtime_ns,
                None => i64::MIN,
            };
            let bm = match &item.b {
                Some(m) => m.mtime_ns,
                None => i64::MIN,
            };
            if am >= bm {
                Eff::Copy(Dir::AtoB)
            } else {
                Eff::Copy(Dir::BtoA)
            }
        },
        Resolution::KeepModified | Resolution::KeepTypeChanged => {
            if item.a_change == ChangeKind::Modified || item.a_change == ChangeKind::TypeChanged || item.a_change
                == ChangeKind::Created {
                Eff::Copy(Dir::AtoB)
            } else {
                Eff::Copy(Dir::BtoA)
            }
        },
        Resolution::PropagateDelete => {
            if item.a_change == ChangeKind::Deleted {
                Eff::Delete(Side::B)
            } else {
                Eff::Delete(Side::A)
            }
        },
    }
}

/// The effect of an item, resolving a conflict by the user's choice for its
/// path, else its default resolution, else `Skip`.
pub fn effect_for(item: &PlanItem, resolutions: &KeyMap<Resolution>) -> (r: Eff)
    requires
        resolutions.wf(),
    ensures
        r == spec_effect(*item, resolutions.map()),
{
    match item.action {
        Action::Noop => Eff::Noop,
        Action::UpdateBaselineOnly => Eff::BaselineOnly,
        Action::CopyAtoB => Eff::Copy(Dir::AtoB),
        Action::CopyBtoA => Eff::Copy(Dir::BtoA),
        Action::DeleteA => Eff::Delete(Side::A),
        Action::DeleteB => Eff::Delete(Side::B),
        Action::Conflict => {
            let res = match resolutions.get(item.path.as_str()) {
                Some(r) => *r,
                None => match item.default_resolution {
                    Some(r) => r,
                    None => Resolution::Skip,
                },
            };
            resolve_conflict(item, res)
        },
    }
}

/// A conflict deletes only when the resolution applied to it is an explicit
/// `PropagateDelete`: every other resolution copies, keeps both, or skips.
pub proof fn law_only_propagate_delete_deletes(item: PlanItem, res: Resolution)
    ensures
        spec_resolve_conflict(item, res) is Delete <==> res == Resolution::PropagateDelete,
{
}

/// Applying the data-preserving default of any conflict type (or no choice
/// at all) never deletes anything.
pub proof fn law_default_resolutions_never_delete(item: PlanItem, chosen: Map<Seq<char>, Resolution>, ct: crate::model::ConflictType)
    requires
        item.action == Action::Conflict,
        !chosen.contains_key(item.path@),
        item.default_resolution is None || item.default_resolution == Some(crate::reconcile::spec_default_resolution(ct)),
    ensures
        !(spec_effect(item, chosen) is Delete),
{
}

// ---------------------------------------------------------------------------
// Ordering
// ---------------------------------------------------------------------------

pub open spec fn is_delete(e: Eff) -> bool {
    e is Delete
}

/// `i` runs before `j`: by path ascending (or descending with `desc`), ties
/// kept in plan order.
pub open spec fn runs_before(items: Seq<PlanItem>, desc: bool, i: int, j: int) -> bool {
    let pi = items[i].path@;
    let pj = items[j].path@;
    if desc {
        seq_lt(pj, pi) || (pi == pj && i < j)
    } else {
        seq_lt(pi, pj) || (pi == pj && i < j)
    }
}

pub open spec fn sorted_by(items: Seq<PlanItem>, desc: bool, s: Seq<usize>) -> bool {
    forall|a: int, b: int| 0 <= a < b < s.len() ==> runs_before(items, desc, #[trigger] s[a] as int, #[trigger] s[b] as int)
}

/// How many of the first `n` effects are not deletions.
pub open spec fn non_delete_count(effects: Seq<Eff>) -> nat
    decreases effects.len(),
{
    if effects.len() == 0 {
        0
    } else {
        non_delete_count(effects.drop_last()) + if is_delete(effects.last()) {
            0nat
        } else {
            1nat
        }
    }
}

proof fn lemma_runs_before_order(items: Seq<PlanItem>, desc: bool, i: int, j: int, k: int)
    ensures
        !runs_before(items, desc, i, i),
        runs_before(items, desc, i, j) ==> !runs_before(items, desc, j, i),
        i != j ==> runs_before(items, desc, i, j) || runs_before(items, desc, j, i),
        runs_before(items, desc, i, j) && runs_before(items, desc, j, k) ==> runs_before(items, desc, i, k),
{
    let pi = items[i].path@;
    let pj = items[j].path@;
    let pk = items[k].path@;
    lemma_lt_irreflexive(pi);
    lemma_lt_asymmetric(pi, pj);
    lemma_lt_total(pi, pj);
    if runs_before(items, desc, i, j) && runs_before(items, desc, j, k) {
        if desc {
            if seq_lt(pj, pi) && seq_lt(pk, pj) {
                lemma_lt_transitive(pk, pj, pi);
            }
        } else {
            if seq_lt(pi, pj) && seq_lt(pj, pk) {
                lemma_lt_transitive(pi, pj, pk);
            }
        }
    }
}

/// Does `i` run before `j`?
fn runs_before_exec(items: &Vec<PlanItem>, desc: bool, i: usize, j: usize) -> (r: bool)
    requires
        i < items@.len(),
        j < items@.len(),
    ensures
        r == runs_before(items@, desc, i as int, j as int),
{
    let pi = items[i].path.as_str();
    let pj = items[j].path.as_str();
    let o = if desc {
        key_order(pj, pi)
    } else {
        key_order(pi, pj)
    };
    proof {
        lemma_lt_asymmetric(pi@, pj@);
        lemma_lt_irreflexive(pi@);
    }
    let r = match o {
        KeyOrder::Less => true,
        KeyOrder::Equal => i < j,
        KeyOrder::Greater => false,
    };
    r
}

/// Insert `x` into the sorted `v`, keeping it sorted.
fn insert_sorted(v: &mut Vec<usize>, x: usize, items: &Vec<PlanItem>, desc: bool)
    requires
        x < items@.len(),
        sorted_by(items@, desc, old(v)@),
        forall|a: int| 0 <= a < old(v)@.len() ==> #[trigger] old(v)@[a] < items@.len() && old(v)@[a] != x,
    ensures
        sorted_by(items@, desc, final(v)@),
        final(v)@.len() == old(v)@.len() + 1,
        forall|a: int| 0 <= a < final(v)@.len() ==> #[trigger] final(v)@[a] < items@.len(),
        forall|y: usize| #[trigger] final(v)@.contains(y) <==> (old(v)@.contains(y) || y == x),
{
    let ghost s = v@;
    let mut p: usize = 0;
    while p < v.len() && runs_before_exec(items, desc, v[p], x)
        invariant
            p <= v@.len(),
            v@ == s,
            x < items@.len(),
            forall|a: int| 0 <= a < s.len() ==> #[trigger] s[a] < items@.len(),
            forall|q: int| 0 <= q < p ==> runs_before(items@, desc, #[trigger] s[q] as int, x as int),
        decreases v@.len() - p,
    {
        p = p + 1;
    }
    proof {
        if p < s.len() {
            assert(s[p as int] != x);
            lemma_runs_before_order(items@, desc, s[p as int] as int, x as int, x as int);
            assert forall|q: int| p <= q < s.len() implies runs_before(items@, desc, x as int, #[trigger] s[q] as int) by {
                if q > p {
                    assert(runs_before(items@, desc, s[p as int] as int, s[q] as int));
                    lemma_runs_before_order(items@, desc, x as int, s[p as int] as int, s[q] as int);
                }
            }
        }
    }
    v.insert(p, x);
    proof {
        let t = v@;
        assert(t == s.insert(p as int, x));
        assert forall|a: int, b: int| 0 <= a < b < t.len() implies runs_before(items@, desc, #[trigger] t[a] as int, #[trigger] t[b] as int) by {
            if b < p {
                assert(t[a] == s[a] && t[b] == s[b]);
            } else if b == p {
                assert(t[a] == s[a]);
            } else if a < p {
                assert(t[a] == s[a] && t[b] == s[b - 1]);
                lemma_runs_before_order(items@, desc, s[a] as int, x as int, s[b - 1] as int);
                if b - 1 >= p {
                    assert(runs_before(items@, desc, x as int, s[b - 1] as int));
                }
            } else if a == p {
                assert(t[b] == s[b - 1]);
            } else {
                assert(t[a] == s[a - 1] && t[b] == s[b - 1]);
            }
        }
        assert forall|y: usize| #[trigger] t.contains(y) <==> (s.contains(y) || y == x) by {
            if t.contains(y) {
                let a = choose|a: int| 0 <= a < t.len() && t[a] == y;
                if a < p {
                    assert(s[a] == y);
                } else if a > p {
                    assert(s[a - 1] == y);
                }
            }
            if s.contains(y) {
                let a = choose|a: int| 0 <= a < s.len() && s[a] == y;
                if a < p {
                    assert(t[a] == y);
                } else {
                    assert(t[a + 1] == y);
                }
            }
            if y == x {
                assert(t[p as int] == x);
            }
        }
        assert forall|a: int| 0 <= a < t.len() implies #[trigger] t[a] < items@.len() by {
            if a < p {
                assert(t[a] == s[a]);
            } else if a > p {
                assert(t[a] == s[a - 1]);
            }
        }
    }
}

/// `order` visits each of `n` items exactly once: it has `n` entries, each
/// an item index, no index twice, and every index among them.
pub open spec fn visits_each_once(order: Seq<usize>, n: nat) -> bool {
    &&& order.len() == n
    &&& forall|a: int| 0 <= a < order.len() ==> #[trigger] order[a] < n
    &&& forall|a: int, b: int| 0 <= a < b < order.len() ==> #[trigger] order[a] != #[trigger] order[b]
    &&& forall|x: usize| x < n ==> #[trigger] order.contains(x)
}

proof fn lemma_non_delete_le(effects: Seq<Eff>)
    ensures
        non_delete_count(effects) <= effects.len(),
    decreases effects.len(),
{
    if effects.len() > 0 {
        lemma_non_delete_le(effects.drop_last());
    }
}

/// An order that puts the non-deletions first, each half sorted by
/// `runs_before`, repeats no index.
proof fn lemma_order_distinct(items: Seq<PlanItem>, effects: Seq<Eff>, o: Seq<usize>)
    requires
        o.len() == items.len(),
        effects.len() == items.len(),
        forall|a: int| 0 <= a < o.len() ==> #[trigger] o[a] < items.len() && (is_delete(effects[o[a] as int]) <==> a
            >= non_delete_count(effects)),
        sorted_by(items, false, o.take(non_delete_count(effects) as int)),
        sorted_by(items, true, o.skip(non_delete_count(effects) as int)),
    ensures
        forall|a: int, b: int| 0 <= a < b < o.len() ==> #[trigger] o[a] != #[trigger] o[b],
{
    lemma_non_delete_le(effects);
    let nd = non_delete_count(effects) as int;
    assert forall|a: int, b: int| 0 <= a < b < o.len() implies #[trigger] o[a] != #[trigger] o[b] by {
        if b < nd {
            let t = o.take(nd);
            assert(t[a] == o[a] && t[b] == o[b]);
            assert(runs_before(items, false, t[a] as int, t[b] as int));
            lemma_runs_before_order(items, false, o[a] as int, o[b] as int, o[b] as int);
        } else if a >= nd {
            let t = o.skip(nd);
            assert(t[a - nd] == o[a] && t[b - nd] == o[b]);
            assert(runs_before(items, true, t[a - nd] as int, t[b - nd] as int));
            lemma_runs_before_order(items, true, o[a] as int, o[b] as int, o[b] as int);
        } else {
            assert(!is_delete(effects[o[a] as int]));
            assert(is_delete(effects[o[b] as int]));
        }
    }
}

/// The order in which items run: non-deletions (directory creations included)
/// parents first, by ascending path; then deletions children first, by
/// descending path, so directories empty out before they are removed. Items
/// with the same path keep their plan order.
pub fn apply_order(items: &Vec<PlanItem>, effects: &Vec<Eff>) -> (r: Vec<usize>)
    requires
        effects@.len() == items@.len(),
    ensures
        r@.len() == items@.len(),
        forall|x: usize| x < items@.len() ==> #[trigger] r@.contains(x),
        forall|a: int| 0 <= a < r@.len() ==> #[trigger] r@[a] < items@.len() && (is_delete(effects@[r@[a] as int])
            <==> a >= non_delete_count(effects@)),
        sorted_by(items@, false, r@.take(non_delete_count(effects@) as int)),
        sorted_by(items@, true, r@.skip(non_delete_count(effects@) as int)),
        visits_each_once(r@, items@.len()),
{
    let n = items.len();
    let mut nd: Vec<usize> = Vec::new();
    let mut dl: Vec<usize> = Vec::new();
    let mut i: usize = 0;
    while i < n
        invariant
            i <= n,
            n == items@.len(),
            effects@.len() == n,
            sorted_by(items@, false, nd@),
            sorted_by(items@, true, dl@),
            nd@.len() == non_delete_count(effects@.take(i as int)),
            nd@.len() + dl@.len() == i,
            forall|a: int| 0 <= a < nd@.len() ==> #[trigger] nd@[a] < i,
            forall|a: int| 0 <= a < dl@.len() ==> #[trigger] dl@[a] < i,
            forall|y: usize| #[trigger] nd@.contains(y) <==> (y < i && !is_delete(effects@[y as int])),
            forall|y: usize| #[trigger] dl@.contains(y) <==> (y < i && is_delete(effects@[y as int])),
        decreases n - i,
    {
        proof {
            assert(effects@.take(i + 1).drop_last() =~= effects@.take(i as int));
        }
        let del = match effects[i] {
            Eff::Delete(_) => true,
            _ => false,
        };
        if del {
            proof {
                assert forall|a: int| 0 <= a < dl@.len() implies #[trigger] dl@[a] < items@.len() && dl@[a] != i by {}
            }
            insert_sorted(&mut dl, i, items, true);
        } else {
            proof {
                assert forall|a: int| 0 <= a < nd@.len() implies #[trigger] nd@[a] < items@.len() && nd@[a] != i by {}
            }
            insert_sorted(&mut nd, i, items, false);
        }
        proof {
            assert forall|a: int| 0 <= a < nd@.len() implies #[trigger] nd@[a] < i + 1 by {
                assert(nd@.contains(nd@[a]));
            }
            assert forall|a: int| 0 <= a < dl@.len() implies #[trigger] dl@[a] < i + 1 by {
                assert(dl@.contains(dl@[a]));
            }
        }
        i = i + 1;
    }
    proof {
        assert(effects@.take(n as int) =~= effects@);
    }
    let k = nd.len();
    let ghost ndv = nd@;
    let ghost dlv = dl@;
    nd.append(&mut dl);
    proof {
        let r = nd@;
        assert(r =~= ndv + dlv);
        assert(r.take(k as int) =~= ndv);
        assert(r.skip(k as int) =~= dlv);
        assert forall|x: usize| x < items@.len() implies #[trigger] r.contains(x) by {
            if is_delete(effects@[x as int]) {
                assert(dlv.contains(x));
                let a = choose|a: int| 0 <= a < dlv.len() && dlv[a] == x;
                assert(r[k + a] == x);
            } else {
                assert(ndv.contains(x));
                let a = choose|a: int| 0 <= a < ndv.len() && ndv[a] == x;
                assert(r[a] == x);
            }
        }
        assert forall|a: int| 0 <= a < r.len() implies #[trigger] r[a] < items@.len() && (is_delete(effects@[r[a] as int])
            <==> a >= k) by {
            if a < k {
                assert(r[a] == ndv[a]);
                assert(ndv.contains(ndv[a]));
            } else {
                assert(r[a] == dlv[a - k]);
                assert(dlv.contains(dlv[a - k]));
            }
        }
        lemma_order_distinct(items@, effects@, r);
    }
    nd
}

// ---------------------------------------------------------------------------
// Progress and the report
// ---------------------------------------------------------------------------

/// One progress beat: the item being worked on and how far along the run is.
#[derive(Debug, Clone)]
pub struct Progress {
    pub done: usize,
    pub total: usize,
    pub path: String,
    pub action: String,
}

/// The name of an action, as `Debug` renders it.
pub open spec fn action_name(a: Action) -> Seq<char> {
    match a {
        Action::Noop => "Noop"@,
        Action::CopyAtoB => "CopyAtoB"@,
        Action::CopyBtoA => "CopyBtoA"@,
        Action::DeleteA => "DeleteA"@,
        Action::DeleteB => "DeleteB"@,
        Action::UpdateBaselineOnly => "UpdateBaselineOnly"@,
        Action::Conflict => "Conflict"@,
    }
}

pub fn action_text(a: Action) -> (r: String)
    ensures
        r@ == action_name(a),
{
    let s = match a {
        Action::Noop => "Noop",
        Action::CopyAtoB => "CopyAtoB",
        Action::CopyBtoA => "CopyBtoA",
        Action::DeleteA => "DeleteA",
        Action::DeleteB => "DeleteB",
        Action::UpdateBaselineOnly => "UpdateBaselineOnly",
        Action::Conflict => "Conflict",
    };
    String::from_str(s)
}

/// Does an effect do filesystem work (and so count toward progress)?
pub open spec fn does_work(e: Eff) -> bool {
    !(e is Noop || e is BaselineOnly)
}

pub open spec fn work_count(effects: Seq<Eff>, order: Seq<usize>) -> nat
    decreases order.len(),
{
    if order.len() == 0 {
        0
    } else {
        work_count(effects, order.drop_last()) + if does_work(effects[order.last() as int]) {
            1nat
        } else {
            0nat
        }
    }
}

/// How many of the ordered items do filesystem work: the progress total.
pub fn progress_total(effects: &Vec<Eff>, order: &Vec<usize>) -> (r: usize)
    requires
        forall|a: int| 0 <= a < order@.len() ==> #[trigger] order@[a] < effects@.len(),
    ensures
        r == work_count(effects@, order@),
{
    let mut n: usize = 0;
    let mut k: usize = 0;
    while k < order.len()
        invariant
            k <= order@.len(),
            n <= k,
            n == work_count(effects@, order@.take(k as int)),
            forall|a: int| 0 <= a < order@.len() ==> #[trigger] order@[a] < effects@.len(),
        decreases order@.len() - k,
    {
        proof {
            assert(order@.take(k + 1).drop_last() =~= order@.take(k as int));
        }
        let e = effects[order[k]];
        match e {
            Eff::Noop | Eff::BaselineOnly => {},
            _ => {
                n = n + 1;
            },
        }
        k = k + 1;
    }
    proof {
        assert(order@.take(order@.len() as int) =~= order@);
    }
    n
}

/// The progress beat for an item: `done` of `total`, its path, and the action
/// name (or `KeepBoth`).
pub fn progress_for(item: &PlanItem, done: usize, total: usize, keep_both: bool) -> (r: Progress)
    ensures
        r.done == done,
        r.total == total,
        r.path@ == item.path@,
        r.action@ == if keep_both {
            "KeepBoth"@
        } else {
            action_name(item.action)
        },
{
    let action = if keep_both {
        String::from_str("KeepBoth")
    } else {
        action_text(item.action)
    };
    Progress { done, total, path: item.path.clone(), action }
}

/// A failed operation (keep the old baseline, report it) or a drift since the
/// preview (also keep the old baseline; re-derived next run).
#[derive(Debug, Clone)]
pub enum SkipOrFail {
    Skip(String),
    Fail(String),
}

/// Bytes copied on success.
pub type Outcome = Result<u64, SkipOrFail>;

/// An outcome row says this about an item.
pub open spec fn outcome_is(o: ItemOutcome, item: PlanItem, status: ItemStatus, error: Option<Seq<char>>) -> bool {
    &&& o.path@ == item.path@
    &&& o.action == item.action
    &&& o.status == status
    &&& match error {
        Some(e) => o.error matches Some(m) && m@ == e,
        None => o.error is None,
    }
}

/// The report after one more row, with the counters as given.
pub open spec fn report_step(
    before: ApplyReport,
    after: ApplyReport,
    item: PlanItem,
    status: ItemStatus,
    error: Option<Seq<char>>,
    done: int,
    failed: int,
    skipped: int,
    conflicts: int,
    bytes: int,
) -> bool {
    &&& after.done == before.done + done
    &&& after.failed == before.failed + failed
    &&& after.skipped == before.skipped + skipped
    &&& after.conflicts == before.conflicts + conflicts
    &&& after.bytes_copied == before.bytes_copied + bytes
    &&& after.outcomes@.len() == before.outcomes@.len() + 1
    &&& after.outcomes@.take(before.outcomes@.len() as int) == before.outcomes@
    &&& outcome_is(after.outcomes@.last(), item, status, error)
}

fn row(item: &PlanItem, status: ItemStatus, error: Option<String>) -> (r: ItemOutcome)
    ensures
        outcome_is(
            r,
            *item,
            status,
            match error {
                Some(e) => Some(e@),
                None => None,
            },
        ),
{
    ItemOutcome { path: item.path.clone(), action: item.action, status, error }
}

/// Record an item skipped because its live state drifted.
pub fn skip(report: &mut ApplyReport, item: &PlanItem, msg: String)
    requires
        old(report).skipped < usize::MAX,
    ensures
        report_step(*old(report), *final(report), *item, ItemStatus::Skipped, Some(msg@), 0, 0, 1, 0, 0),
{
    report.skipped = report.skipped + 1;
    let ghost before = report.outcomes@;
    report.outcomes.push(row(item, ItemStatus::Skipped, Some(msg)));
    proof {
        assert(report.outcomes@.take(before.len() as int) =~= before);
    }
}

/// Record the outcome of an item that did filesystem work (the copied byte
/// count saturates at `u64::MAX`).
pub fn record(report: &mut ApplyReport, item: &PlanItem, outcome: Outcome)
    requires
        old(report).done < usize::MAX,
        old(report).failed < usize::MAX,
        old(report).skipped < usize::MAX,
    ensures
        match outcome {
            Ok(b) => report_step(*old(report), *final(report), *item, ItemStatus::Done, None, 1, 0, 0, 0, if old(report).bytes_copied + b <= u64::MAX {
                b as int
            } else {
                u64::MAX - old(report).bytes_copied
            }),
            Err(SkipOrFail::Skip(m)) => report_step(*old(report), *final(report), *item, ItemStatus::Skipped, Some(m@), 0, 0, 1, 0, 0),
            Err(SkipOrFail::Fail(m)) => report_step(*old(report), *final(report), *item, ItemStatus::Failed, Some(m@), 0, 1, 0, 0, 0),
        },
{
    let ghost before = report.outcomes@;
    match outcome {
        Ok(bytes) => {
            report.done = report.done + 1;
            report.bytes_copied = report.bytes_copied.saturating_add(bytes);
            report.outcomes.push(row(item, ItemStatus::Done, None));
        },
        Err(SkipOrFail::Skip(msg)) => {
            skip(report, item, msg);
        },
        Err(SkipOrFail::Fail(msg)) => {
            report.failed = report.failed + 1;
            report.outcomes.push(row(item, ItemStatus::Failed, Some(msg)));
        },
    }
    proof {
        assert(report.outcomes@.take(before.len() as int) =~= before);
    }
}

/// Record a conflict left unresolved.
pub fn record_conflict(report: &mut ApplyReport, item: &PlanItem)
    requires
        old(report).conflicts < usize::MAX,
    ensures
        report_step(*old(report), *final(report), *item, ItemStatus::Conflict, None, 0, 0, 0, 1, 0),
{
    report.conflicts = report.conflicts + 1;
    let ghost before = report.outcomes@;
    report.outcomes.push(row(item, ItemStatus::Conflict, None));
    proof {
        assert(report.outcomes@.take(before.len() as int) =~= before);
    }
}

/// Record a baseline-only item as done (no counter moves: nothing was copied).
pub fn record_converged(report: &mut ApplyReport, item: &PlanItem)
    ensures
        report_step(*old(report), *final(report), *item, ItemStatus::Done, None, 0, 0, 0, 0, 0),
{
    let ghost before = report.outcomes@;
    report.outcomes.push(row(item, ItemStatus::Done, None));
    proof {
        assert(report.outcomes@.take(before.len() as int) =~= before);
    }
}

// ---------------------------------------------------------------------------
// Pre-checks: is an item still safe to touch?
// ---------------------------------------------------------------------------

/// The text of the "not representable" failure for `path`.
pub open spec fn not_representable_text(path: Seq<char>, reason: Seq<char>) -> Seq<char> {
    "path not representable on this OS: "@ + path + " ("@ + reason + ")"@
}

fn skip_msg(s: &str) -> (r: SkipOrFail)
    ensures
        r matches SkipOrFail::Skip(m) && m@ == s@,
{
    SkipOrFail::Skip(String::from_str(s))
}

/// The path as a `Fail`, when the destination OS cannot represent it.
fn representable_or_fail(path: &str, windows: bool) -> (r: Result<(), SkipOrFail>)
    ensures
        match representable_problem(path@, windows) {
            Some(reason) => r matches Err(SkipOrFail::Fail(m)) && m@ == not_representable_text(path@, reason),
            None => r is Ok,
        },
{
    match validate_representable(path, windows) {
        Ok(()) => Ok(()),
        Err(e) => Err(SkipOrFail::Fail(e.message())),
    }
}

pub open spec fn copy_source(item: PlanItem, dir: Dir) -> Option<Meta> {
    match dir {
        Dir::AtoB => item.a,
        Dir::BtoA => item.b,
    }
}

pub open spec fn copy_dest(item: PlanItem, dir: Dir) -> Option<Meta> {
    match dir {
        Dir::AtoB => item.b,
        Dir::BtoA => item.a,
    }
}

/// Whether a copy may proceed, given the live source and destination: the
/// source must still exist in the plan, the path must be representable, and
/// both ends must still match the plan. `Ok(true)` creates a directory,
/// `Ok(false)` copies a file; `Err((skip, text))` skips (drift) or fails.
pub open spec fn spec_copy_check(
    item: PlanItem,
    dir: Dir,
    windows: bool,
    src_now: Option<Meta>,
    dst_now: Option<Meta>,
    gran: int,
) -> Result<bool, (bool, Seq<char>)> {
    match copy_source(item, dir) {
        None => Err((true, "source vanished"@)),
        Some(sm) => match representable_problem(item.path@, windows) {
            Some(reason) => Err((false, not_representable_text(item.path@, reason))),
            None => if !spec_meta_matches(src_now, Some(sm), gran) {
                Err((true, "source changed since preview"@))
            } else if !spec_meta_matches(dst_now, copy_dest(item, dir), gran) {
                Err((true, "destination changed since preview"@))
            } else {
                Ok(sm.kind == EntryKind::Dir)
            },
        },
    }
}

pub open spec fn failure_is(r: SkipOrFail, e: (bool, Seq<char>)) -> bool {
    match r {
        SkipOrFail::Skip(m) => e.0 && m@ == e.1,
        SkipOrFail::Fail(m) => !e.0 && m@ == e.1,
    }
}

/// Pre-check of a copy in direction `dir` against the live state of both ends.
pub fn copy_precheck(
    item: &PlanItem,
    dir: Dir,
    windows: bool,
    src_now: Option<&Meta>,
    dst_now: Option<&Meta>,
    gran: i64,
) -> (r: Result<bool, SkipOrFail>)
    ensures
        match spec_copy_check(*item, dir, windows, opt_ref_meta(src_now), opt_ref_meta(dst_now), gran as int) {
            Ok(is_dir) => r == Ok::<bool, SkipOrFail>(is_dir),
            Err(e) => r matches Err(f) && failure_is(f, e),
        },
{
    let (src_meta, dst_meta) = match dir {
        Dir::AtoB => (item.a.as_ref(), item.b.as_ref()),
        Dir::BtoA => (item.b.as_ref(), item.a.as_ref()),
    };
    let src_meta = match src_meta {
        Some(m) => m,
        None => {
            return Err(skip_msg("source vanished"));
        },
    };
    representable_or_fail(item.path.as_str(), windows)?;
    if !meta_matches(src_now, Some(src_meta), gran) {
        return Err(skip_msg("source changed since preview"));
    }
    if !meta_matches(dst_now, dst_meta, gran) {
        return Err(skip_msg("destination changed since preview"));
    }
    Ok(src_meta.is_dir())
}

/// Archive a pre-existing destination file before overwriting it, unless it
/// is already meta-equal to the source (a lossless rewrite).
pub fn needs_archive(cur: Option<&Meta>, src: &Meta, gran: i64) -> (r: bool)
    ensures
        r == (cur matches Some(c) && c.kind == EntryKind::File && !spec_meta_matches(Some(*c), Some(*src), gran as int)),
{
    match cur {
        Some(c) => c.is_file() && !meta_matches(Some(c), Some(src), gran),
        None => false,
    }
}

/// What a deletion does once checked against the live state.
#[derive(Debug, Clone)]
pub enum DeleteStep {
    /// The planned side was already absent: just drop the baseline entry.
    AlreadyGone,
    Skip(String),
    RemoveDir,
    RecycleFile,
}

pub open spec fn delete_target(item: PlanItem, side: Side) -> Option<Meta> {
    match side {
        Side::A => item.a,
        Side::B => item.b,
    }
}

/// Pre-check of a deletion on `side` against its live state.
pub fn delete_precheck(item: &PlanItem, side: Side, live: Option<&Meta>, gran: i64) -> (r: DeleteStep)
    ensures
        match delete_target(*item, side) {
            None => r is AlreadyGone,
            Some(m) => if !spec_meta_matches(opt_ref_meta(live), Some(m), gran as int) {
                r matches DeleteStep::Skip(s) && s@ == "target changed since preview"@
            } else if m.kind == EntryKind::Dir {
                r is RemoveDir
            } else {
                r is RecycleFile
            },
        },
{
    let meta = match side {
        Side::A => item.a.as_ref(),
        Side::B => item.b.as_ref(),
    };
    match meta {
        None => DeleteStep::AlreadyGone,
        Some(m) => {
            if !meta_matches(live, Some(m), gran) {
                DeleteStep::Skip(String::from_str("target changed since preview"))
            } else if m.is_dir() {
                DeleteStep::RemoveDir
            } else {
                DeleteStep::RecycleFile
            }
        },
    }
}

/// Index of the last occurrence of `c`.
pub open spec fn last_index(s: Seq<char>, c: char) -> Option<int>
    decreases s.len(),
{
    if s.len() == 0 {
        None
    } else if s.last() == c {
        Some(s.len() - 1)
    } else {
        last_index(s.drop_last(), c)
    }
}

proof fn lemma_last_index(s: Seq<char>, c: char, i: int)
    requires
        -1 <= i < s.len(),
        forall|k: int| i < k < s.len() ==> #[trigger] s[k] != c,
    ensures
        i >= 0 && s[i] == c ==> last_index(s, c) == Some(i),
        i == -1 ==> last_index(s, c) is None,
    decreases s.len() - i,
{
    if s.len() > 0 && i < s.len() - 1 {
        assert forall|k: int| i < k < s.drop_last().len() implies #[trigger] s.drop_last()[k] != c by {
            assert(s.drop_last()[k] == s[k]);
        }
        lemma_last_index(s.drop_last(), c, i);
        if i >= 0 {
            assert(s.drop_last()[i] == s[i]);
        }
    }
}

/// Position of the last `c` in `s[lo..hi]`, relative to `lo`'s sequence start.
fn find_last(s: &Vec<char>, lo: usize, hi: usize, c: char) -> (r: Option<usize>)
    requires
        lo <= hi <= s@.len(),
    ensures
        match r {
            Some(k) => lo <= k < hi && s@[k as int] == c && last_index(s@.subrange(lo as int, hi as int), c) == Some(
                k - lo,
            ),
            None => last_index(s@.subrange(lo as int, hi as int), c) is None,
        },
{
    let ghost sub = s@.subrange(lo as int, hi as int);
    let mut k = hi;
    while k > lo
        invariant
            lo <= k <= hi,
            hi <= s@.len(),
            sub == s@.subrange(lo as int, hi as int),
            forall|m: int| k - lo <= m < sub.len() ==> #[trigger] sub[m] != c,
        decreases k - lo,
    {
        if s[k - 1] == c {
            proof {
                assert(sub[k - 1 - lo] == c);
                lemma_last_index(sub, c, k - 1 - lo);
            }
            return Some(k - 1);
        }
        k = k - 1;
    }
    proof {
        lemma_last_index(sub, c, -1);
    }
    None
}

/// The preserved name of one side's version of a conflicted file:
/// `stem.sync-conflict-{secs}-{side}.ext` in the same directory (no `.ext`
/// when the name has no extension; a leading dot does not start one).
pub open spec fn spec_conflict_name(key: Seq<char>, side: Seq<char>, secs: nat) -> Seq<char> {
    let (dir, file) = match last_index(key, '/') {
        Some(i) => (Some(key.take(i)), key.skip(i + 1)),
        None => (None::<Seq<char>>, key),
    };
    let (stem, ext) = match last_index(file, '.') {
        Some(j) => if j > 0 {
            (file.take(j), Some(file.skip(j + 1)))
        } else {
            (file, None::<Seq<char>>)
        },
        None => (file, None::<Seq<char>>),
    };
    let tail = stem + ".sync-conflict-"@ + decimal(secs) + "-"@ + side;
    let new_file = match ext {
        Some(e) => tail + "."@ + e,
        None => tail,
    };
    match dir {
        Some(d) => d + "/"@ + new_file,
        None => new_file,
    }
}

fn push_range(out: &mut Vec<char>, s: &Vec<char>, lo: usize, hi: usize)
    requires
        lo <= hi <= s@.len(),
    ensures
        final(out)@ == old(out)@ + s@.subrange(lo as int, hi as int),
{
    let ghost before = out@;
    let mut k = lo;
    while k < hi
        invariant
            lo <= k <= hi,
            hi <= s@.len(),
            out@ == before + s@.subrange(lo as int, k as int),
        decreases hi - k,
    {
        out.push(s[k]);
        k = k + 1;
        proof {
            assert(out@ =~= before + s@.subrange(lo as int, k as int));
        }
    }
}

/// The conflict-preserving name for `key` on `side` at time `secs`.
#[verifier::spinoff_prover]
#[verifier::rlimit(40)]
pub fn conflict_name(key: &str, side: &str, secs: u64) -> (r: String)
    ensures
        r@ == spec_conflict_name(key@, side@, secs as nat),
{
    let s = chars_of(key);
    let n = s.len();
    let slash = find_last(&s, 0, n, '/');
    proof {
        assert(s@.subrange(0, n as int) =~= key@);
    }
    let fstart: usize = match slash {
        Some(i) => i + 1,
        None => 0,
    };
    proof {
        match slash {
            Some(i) => {
                assert(key@.skip(i + 1) =~= s@.subrange(fstart as int, n as int));
            },
            None => {
                assert(key@ =~= s@.subrange(0, n as int));
            },
        }
    }
    let ghost file = s@.subrange(fstart as int, n as int);
    let dot = find_last(&s, fstart, n, '.');
    let mut out: Vec<char> = Vec::new();
    match slash {
        Some(i) => {
            push_range(&mut out, &s, 0, i);
            out.push('/');
            proof {
                assert(s@.subrange(0, i as int) =~= key@.take(i as int));
            }
        },
        None => {},
    }
    let ghost prefix = out@;
    let stem_end: usize = match dot {
        Some(j) => if j > fstart { j } else { n },
        None => n,
    };
    push_range(&mut out, &s, fstart, stem_end);
    push_str(&mut out, ".sync-conflict-");
    push_decimal(&mut out, secs);
    push_str(&mut out, "-");
    push_str(&mut out, side);
    let has_ext = match dot {
        Some(j) => j > fstart,
        None => false,
    };
    if has_ext {
        let j = stem_end;
        out.push('.');
        push_range(&mut out, &s, j + 1, n);
    }
    proof {
        match dot {
            Some(j) => {
                if j > fstart {
                    assert(file.take(j - fstart) =~= s@.subrange(fstart as int, j as int));
                    assert(file.skip(j - fstart + 1) =~= s@.subrange(j + 1, n as int));
                }
            },
            None => {},
        }
        assert(file.take(file.len() as int) =~= file);
        assert(s@.subrange(0, n as int) =~= key@);
        match slash {
            Some(i) => {
                assert(last_index(key@, '/') == Some(i as int));
                assert(key@.skip(i + 1) =~= file);
                assert(prefix == key@.take(i as int) + "/"@) by {
                    reveal_strlit("/");
                    assert(prefix =~= key@.take(i as int) + seq!['/']);
                }
            },
            None => {
                assert(last_index(key@, '/') is None);
                assert(file =~= key@);
                assert(prefix =~= Seq::<char>::empty());
            },
        }
        reveal_strlit(".");
        assert(seq!['.'] =~= "."@);
        match dot {
            Some(j) => {
                assert(last_index(file, '.') == Some(j - fstart));
            },
            None => {
                assert(last_index(file, '.') is None);
            },
        }
        assert(out@ =~= spec_conflict_name(key@, side@, secs as nat));
    }
    string_from_chars(&out)
}

/// What "keep both" does once checked against the live state.
#[derive(Debug, Clone)]
pub enum KeepBothStep {
    /// Two versions: A takes the canonical name on both sides; B's file, when
    /// it is a file, is preserved first under this conflict name on both.
    Both { preserve_b_as: Option<String> },
    /// One live version: promote it to the canonical name on both sides.
    OnlyA,
    OnlyB,
    Neither,
}

/// Pre-check of "keep both" against the live state of both sides.
pub fn keep_both_precheck(
    item: &PlanItem,
    windows: bool,
    a_live: Option<&Meta>,
    b_live: Option<&Meta>,
    gran: i64,
    secs: u64,
) -> (r: Result<KeepBothStep, SkipOrFail>)
    ensures
        !spec_meta_matches(opt_ref_meta(a_live), item.a, gran as int) || !spec_meta_matches(opt_ref_meta(b_live), item.b, gran as int)
            ==> (r matches Err(SkipOrFail::Skip(m)) && m@ == "a side changed since preview"@),
        spec_meta_matches(opt_ref_meta(a_live), item.a, gran as int) && spec_meta_matches(opt_ref_meta(b_live), item.b, gran as int)
            ==> match representable_problem(item.path@, windows) {
            Some(reason) => r matches Err(SkipOrFail::Fail(m)) && m@ == not_representable_text(item.path@, reason),
            None => match (item.a, item.b) {
                (Some(_), Some(bm)) => if bm.kind == EntryKind::File {
                    let cp = spec_conflict_name(item.path@, "B"@, secs as nat);
                    match representable_problem(cp, windows) {
                        Some(reason) => r matches Err(SkipOrFail::Fail(m)) && m@ == not_representable_text(cp, reason),
                        None => r matches Ok(KeepBothStep::Both { preserve_b_as: Some(p) }) && p@ == cp,
                    }
                } else {
                    r matches Ok(KeepBothStep::Both { preserve_b_as: None })
                },
                (Some(_), None) => r matches Ok(KeepBothStep::OnlyA),
                (None, Some(_)) => r matches Ok(KeepBothStep::OnlyB),
                (None, None) => r matches Ok(KeepBothStep::Neither),
            },
        },
{
    if !meta_matches(a_live, item.a.as_ref(), gran) || !meta_matches(b_live, item.b.as_ref(), gran) {
        return Err(skip_msg("a side changed since preview"));
    }
    representable_or_fail(item.path.as_str(), windows)?;
    match (&item.a, &item.b) {
        (Some(_), Some(bm)) => {
            if bm.is_file() {
                let cp = conflict_name(item.path.as_str(), "B", secs);
                representable_or_fail(cp.as_str(), windows)?;
                Ok(KeepBothStep::Both { preserve_b_as: Some(cp) })
            } else {
                Ok(KeepBothStep::Both { preserve_b_as: None })
            }
        },
        (Some(_), None) => Ok(KeepBothStep::OnlyA),
        (None, Some(_)) => Ok(KeepBothStep::OnlyB),
        (None, None) => Ok(KeepBothStep::Neither),
    }
}

/// How a version is put in place at the canonical name on the destination.
#[derive(Debug, Clone, Copy, PartialEq, Eq, Structural)]
pub enum PlaceStep {
    /// Copy the file; an (empty) directory in the way is removed first.
    CopyFile { clear_dir: bool },
    /// Make the directory; a file in the way is recycled first (its content
    /// is preserved elsewhere by the caller).
    MakeDir { clear_file: bool },
    Nothing,
}

pub fn place_step(meta: &Meta, dst_now: Option<&Meta>) -> (r: PlaceStep)
    ensures
        r == (if meta.kind == EntryKind::File {
            PlaceStep::CopyFile { clear_dir: dst_now matches Some(m) && m.kind == EntryKind::Dir }
        } else if meta.kind == EntryKind::Dir {
            PlaceStep::MakeDir { clear_file: dst_now matches Some(m) && m.kind != EntryKind::Dir }
        } else {
            PlaceStep::Nothing
        }),
{
    if meta.is_file() {
        let clear_dir = match dst_now {
            Some(m) => m.is_dir(),
            None => false,
        };
        PlaceStep::CopyFile { clear_dir }
    } else if meta.is_dir() {
        let clear_file = match dst_now {
            Some(m) => !m.is_dir(),
            None => false,
        };
        PlaceStep::MakeDir { clear_file }
    } else {
        PlaceStep::Nothing
    }
}

/// The text of an optional name.
pub open spec fn opt_text(o: Option<&str>) -> Option<Seq<char>> {
    match o {
        Some(t) => Some(t@),
        None => None,
    }
}

/// The baseline once a "keep both" has preserved B's version under the
/// conflict name `preserved` on both sides (that entry is B's snapshot);
/// unchanged for any other effect, or when nothing was preserved.
pub open spec fn preserved_view(
    before: Map<Seq<char>, Meta>,
    item: PlanItem,
    effect: Eff,
    preserved: Option<Seq<char>>,
) -> Map<Seq<char>, Meta> {
    match (effect, preserved, item.a, item.b) {
        (Eff::KeepBoth, Some(cp), Some(_), Some(bm)) => before.insert(cp, bm),
        _ => before,
    }
}

/// A skipped or failed item keeps its own baseline entry: at most a
/// preserved conflict copy, under another name, is recorded.
pub proof fn law_failed_item_keeps_its_entry(
    before: Map<Seq<char>, Meta>,
    item: PlanItem,
    effect: Eff,
    preserved: Option<Seq<char>>,
)
    requires
        preserved matches Some(cp) ==> cp != item.path@,
    ensures
        preserved_view(before, item, effect, preserved).contains_key(item.path@) == before.contains_key(item.path@),
        before.contains_key(item.path@) ==> preserved_view(before, item, effect, preserved)[item.path@]
            == before[item.path@],
{
}

/// The baseline after an item's filesystem work succeeded: a copy records
/// the source's snapshot at the path, a deletion forgets the path, and a
/// "keep both" records the preserved copy (if any) and then the version
/// placed at the canonical name (A's when A has one, else B's). Every other
/// effect leaves the baseline alone.
pub open spec fn settled_view(
    before: Map<Seq<char>, Meta>,
    item: PlanItem,
    effect: Eff,
    preserved: Option<Seq<char>>,
) -> Map<Seq<char>, Meta> {
    let p = item.path@;
    match effect {
        Eff::Copy(dir) => match copy_source(item, dir) {
            Some(m) => before.insert(p, m),
            None => before,
        },
        Eff::Delete(_) => before.remove(p),
        Eff::KeepBoth => match (item.a, item.b) {
            (Some(am), _) => preserved_view(before, item, effect, preserved).insert(p, am),
            (None, Some(bm)) => before.insert(p, bm),
            (None, None) => before,
        },
        _ => before,
    }
}

/// Advance the baseline for an item whose effect was carried out with
/// `outcome`. Only a success moves the item's own entry; a skipped or failed
/// item keeps its old entry, so its pending change is found again next run.
/// A "keep both" whose conflict copies were both written (`preserved`)
/// records that copy even when placing the canonical version then failed.
pub fn settle(base: &mut Baseline, item: &PlanItem, effect: Eff, preserved: Option<&str>, outcome: &Outcome)
    requires
        old(base).wf(),
    ensures
        final(base).wf(),
        outcome is Err ==> final(base).view() == preserved_view(old(base).view(), *item, effect, opt_text(preserved)),
        outcome is Ok ==> final(base).view() == settled_view(old(base).view(), *item, effect, opt_text(preserved)),
{
    match (effect, preserved, &item.a, &item.b) {
        (Eff::KeepBoth, Some(cp), Some(_), Some(bm)) => {
            base.update_entry(cp, Some(bm.duplicate()));
        },
        _ => {},
    }
    if outcome.is_err() {
        return;
    }
    match effect {
        Eff::Copy(dir) => {
            let src = match dir {
                Dir::AtoB => &item.a,
                Dir::BtoA => &item.b,
            };
            match src {
                Some(m) => {
                    base.update_entry(item.path.as_str(), Some(m.duplicate()));
                },
                None => {},
            }
        },
        Eff::Delete(_) => {
            base.update_entry(item.path.as_str(), None);
        },
        Eff::KeepBoth => match (&item.a, &item.b) {
            (Some(am), _) => {
                base.update_entry(item.path.as_str(), Some(am.duplicate()));
            },
            (None, Some(bm)) => {
                base.update_entry(item.path.as_str(), Some(bm.duplicate()));
            },
            (None, None) => {},
        },
        _ => {},
    }
}

/// On a baseline-only item, advance the baseline to the converged state
/// without touching files: both gone drops the entry; otherwise the surviving
/// (A's, when both exist) snapshot is recorded. Returns the mtime to set on
/// B's file when both exist as files whose mtimes differ (A's, clamped at 0),
/// so the identical copies stop re-surfacing.
pub fn converge_baseline(item: &PlanItem, base: &mut Baseline) -> (r: Option<i64>)
    requires
        old(base).wf(),
    ensures
        final(base).wf(),
        final(base).view() == crate::baseline::updated_view(
            old(base).view(),
            item.path@,
            match (item.a, item.b) {
                (None, None) => None,
                (Some(am), _) => Some(am),
                (None, Some(bm)) => Some(bm),
            },
        ),
        r == (match (item.a, item.b) {
            (Some(am), Some(bm)) => if am.kind == EntryKind::File && am.mtime_ns != bm.mtime_ns {
                Some(if am.mtime_ns >= 0 { am.mtime_ns } else { 0i64 })
            } else {
                None
            },
            _ => None,
        }),
{
    match (&item.a, &item.b) {
        (None, None) => {
            base.update_entry(item.path.as_str(), None);
            None
        },
        (Some(am), Some(bm)) => {
            let align = if am.is_file() && am.mtime_ns != bm.mtime_ns {
                Some(if am.mtime_ns >= 0 { am.mtime_ns } else { 0i64 })
            } else {
                None
            };
            base.update_entry(item.path.as_str(), Some(am.duplicate()));
            align
        },
        (Some(m), None) => {
            base.update_entry(item.path.as_str(), Some(m.duplicate()));
            None
        },
        (None, Some(m)) => {
            base.update_entry(item.path.as_str(), Some(m.duplicate()));
            None
        },
    }
}

// ---------------------------------------------------------------------------
// The apply loop, one step at a time
// ---------------------------------------------------------------------------

/// Does an effect advance the progress counter (it touches the filesystem)?
pub open spec fn counts_progress(e: Eff) -> bool {
    e is Copy || e is Delete || e is KeepBoth
}

pub open spec fn progress_count(effects: Seq<Eff>, order: Seq<usize>) -> nat
    decreases order.len(),
{
    if order.len() == 0 {
        0
    } else {
        progress_count(effects, order.drop_last()) + if counts_progress(effects[order.last() as int]) {
            1nat
        } else {
            0nat
        }
    }
}

proof fn lemma_progress_le_work(effects: Seq<Eff>, order: Seq<usize>)
    ensures
        progress_count(effects, order) <= work_count(effects, order),
        work_count(effects, order) <= order.len(),
    decreases order.len(),
{
    if order.len() > 0 {
        lemma_progress_le_work(effects, order.drop_last());
    }
}

proof fn lemma_work_prefix(effects: Seq<Eff>, order: Seq<usize>, k: int)
    requires
        0 <= k <= order.len(),
    ensures
        work_count(effects, order.take(k)) <= work_count(effects, order),
    decreases order.len() - k,
{
    if k < order.len() {
        lemma_work_prefix(effects, order, k + 1);
        assert(order.take(k + 1).drop_last() =~= order.take(k));
    } else {
        assert(order.take(k) =~= order);
    }
}

/// The effect of an item in a run: an unattended run never resolves a
/// conflict on its own, it leaves it for a person; otherwise the user's
/// resolutions apply.
pub open spec fn policy_effect(item: PlanItem, chosen: Map<Seq<char>, Resolution>, unattended: bool) -> Eff {
    if unattended && item.action == Action::Conflict {
        Eff::SkipConflict
    } else {
        spec_effect(item, chosen)
    }
}

/// Does an unattended run under `apply_deletes == false` (the safe policy)
/// leave this effect for a person? Only deletions are held back.
pub fn defers_delete(apply_deletes: bool, e: Eff) -> (r: bool)
    ensures
        r == (!apply_deletes && e is Delete),
{
    !apply_deletes && match e {
        Eff::Delete(_) => true,
        _ => false,
    }
}

/// What the apply loop does next.
#[derive(Debug, Clone)]
pub enum ApplyStep {
    /// Stop: every item was visited, or the run was cancelled.
    Finished,
    /// Nothing to do for item `0` (already in sync).
    Pass(usize),
    /// Advance item `0`'s baseline to the converged state; no file is touched.
    Converge(usize),
    /// Report item `0` as a conflict left unresolved.
    Conflict(usize),
    /// Announce `progress`, then carry out `effect` on item `index` and
    /// record its outcome.
    Work { index: usize, effect: Eff, progress: Progress },
}

/// The apply loop's state: each item's effect, the order they run in, how
/// far the loop got and how many items have done filesystem work.
pub struct ApplyRun {
    effects: Vec<Eff>,
    order: Vec<usize>,
    pos: usize,
    done: usize,
    total: usize,
}

impl ApplyRun {
    pub closed spec fn effects(&self) -> Seq<Eff> {
        self.effects@
    }

    pub closed spec fn order(&self) -> Seq<usize> {
        self.order@
    }

    /// How many items of the order have been visited.
    pub closed spec fn pos(&self) -> nat {
        self.pos as nat
    }

    /// The progress counter: visited items that did filesystem work.
    pub closed spec fn done(&self) -> nat {
        self.done as nat
    }

    /// The progress total: ordered items that are neither no-ops nor
    /// baseline-only.
    pub closed spec fn total(&self) -> nat {
        self.total as nat
    }

    /// The loop's invariant over the plan's items.
    pub closed spec fn wf(&self, items: Seq<PlanItem>) -> bool {
        let e = self.effects@;
        let o = self.order@;
        &&& e.len() == items.len()
        &&& o.len() == items.len()
        &&& forall|x: usize| x < items.len() ==> #[trigger] o.contains(x)
        &&& forall|a: int| 0 <= a < o.len() ==> #[trigger] o[a] < items.len()
        &&& self.pos <= o.len()
        &&& self.total == work_count(e, o)
        &&& self.done == progress_count(e, o.take(self.pos as int))
    }

    /// Resolve every item to its effect under the user's resolutions (an
    /// `unattended` run leaves every conflict unresolved) and fix the order
    /// they run in.
    pub fn new(items: &Vec<PlanItem>, resolutions: &KeyMap<Resolution>, unattended: bool) -> (r: ApplyRun)
        requires
            resolutions.wf(),
        ensures
            r.wf(items@),
            r.pos() == 0,
            r.done() == 0,
            r.total() == work_count(r.effects(), r.order()),
            forall|i: int| 0 <= i < items@.len() ==> #[trigger] r.effects()[i] == policy_effect(items@[i], resolutions.map(), unattended),
            forall|a: int| 0 <= a < r.order().len() ==> (is_delete(r.effects()[#[trigger] r.order()[a] as int]) <==> a
                >= non_delete_count(r.effects())),
            sorted_by(items@, false, r.order().take(non_delete_count(r.effects()) as int)),
            sorted_by(items@, true, r.order().skip(non_delete_count(r.effects()) as int)),
            visits_each_once(r.order(), items@.len()),
    {
        let mut effects: Vec<Eff> = Vec::new();
        let mut i: usize = 0;
        while i < items.len()
            invariant
                i <= items@.len(),
                resolutions.wf(),
                effects@.len() == i,
                forall|j: int| 0 <= j < i ==> #[trigger] effects@[j] == policy_effect(items@[j], resolutions.map(), unattended),
            decreases items@.len() - i,
        {
            let e = if unattended && items[i].action == Action::Conflict {
                Eff::SkipConflict
            } else {
                effect_for(&items[i], resolutions)
            };
            effects.push(e);
            i = i + 1;
        }
        let order = apply_order(items, &effects);
        let total = progress_total(&effects, &order);
        proof {
            assert(order@.take(0) =~= Seq::<usize>::empty());
        }
        ApplyRun { effects, order, pos: 0, done: 0, total }
    }

    /// One step of the loop: stop when cancelled or when every item was
    /// visited; otherwise visit the next item in order, counting it toward
    /// progress when it does filesystem work.
    pub fn next(&mut self, items: &Vec<PlanItem>, cancelled: bool) -> (s: ApplyStep)
        requires
            old(self).wf(items@),
        ensures
            final(self).wf(items@),
            final(self).effects() == old(self).effects(),
            final(self).order() == old(self).order(),
            final(self).total() == old(self).total(),
            final(self).done() <= final(self).total(),
            cancelled || old(self).pos() == old(self).order().len() ==> s is Finished && final(self).pos() == old(
                self,
            ).pos() && final(self).done() == old(self).done(),
            !(cancelled || old(self).pos() == old(self).order().len()) ==> ({
                let idx = old(self).order()[old(self).pos() as int];
                let e = old(self).effects()[idx as int];
                &&& final(self).pos() == old(self).pos() + 1
                &&& final(self).done() == old(self).done() + if counts_progress(e) { 1nat } else { 0nat }
                &&& match e {
                    Eff::Noop => s == ApplyStep::Pass(idx),
                    Eff::BaselineOnly => s == ApplyStep::Converge(idx),
                    Eff::SkipConflict => s == ApplyStep::Conflict(idx),
                    _ => s matches ApplyStep::Work { index, effect, progress } && index == idx && effect == e
                        && progress.done == final(self).done() && progress.total == final(self).total()
                        && progress.path@ == items@[idx as int].path@ && progress.action@ == (if e is KeepBoth {
                        "KeepBoth"@
                    } else {
                        action_name(items@[idx as int].action)
                    }),
                }
            }),
    {
        proof {
            lemma_progress_le_work(self.effects@, self.order@.take(self.pos as int));
            lemma_work_prefix(self.effects@, self.order@, self.pos as int);
        }
        if cancelled || self.pos >= self.order.len() {
            return ApplyStep::Finished;
        }
        let idx = self.order[self.pos];
        let e = self.effects[idx];
        let ghost p0 = self.pos as int;
        proof {
            assert(self.order@.take(p0 + 1).drop_last() =~= self.order@.take(p0));
            lemma_progress_le_work(self.effects@, self.order@.take(p0 + 1));
            lemma_work_prefix(self.effects@, self.order@, p0 + 1);
        }
        self.pos = self.pos + 1;
        let r = match e {
            Eff::Noop => ApplyStep::Pass(idx),
            Eff::BaselineOnly => ApplyStep::Converge(idx),
            Eff::SkipConflict => ApplyStep::Conflict(idx),
            _ => {
                self.done = self.done + 1;
                let keep_both = match e {
                    Eff::KeepBoth => true,
                    _ => false,
                };
                let progress = progress_for(&items[idx], self.done, self.total, keep_both);
                ApplyStep::Work { index: idx, effect: e, progress }
            },
        };
        r
    }
}

/// Over a whole run the loop visits each item exactly once, in the apply
/// order, and the progress counter never passes the total: after `k` steps
/// the visited items are the first `k` of the order and the counter is how
/// many of them did filesystem work.
pub proof fn law_progress_within_total(effects: Seq<Eff>, order: Seq<usize>, k: int)
    requires
        0 <= k <= order.len(),
    ensures
        progress_count(effects, order.take(k)) <= work_count(effects, order),
        work_count(effects, order) <= order.len(),
{
    lemma_progress_le_work(effects, order.take(k));
    lemma_work_prefix(effects, order, k);
    lemma_progress_le_work(effects, order);
}

/// Keeping the modified (or the type-changed) side copies from the side
/// that is still live over the other. The copy goes from A whenever A was
/// modified, type-changed or created (and only then), and from B when A is
/// the side that was deleted. Neither resolution deletes anything.
pub proof fn law_keep_live_side(item: PlanItem, res: Resolution)
    requires
        res == Resolution::KeepModified || res == Resolution::KeepTypeChanged,
    ensures
        spec_resolve_conflict(item, res) == Eff::Copy(Dir::AtoB) <==> (item.a_change == ChangeKind::Modified
            || item.a_change == ChangeKind::TypeChanged || item.a_change == ChangeKind::Created),
        item.a_change == ChangeKind::Deleted ==> spec_resolve_conflict(item, res) == Eff::Copy(Dir::BtoA),
        spec_resolve_conflict(item, res) is Copy,
{
}

} // verus!
