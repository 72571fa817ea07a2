//! The scheduling decision: which schedules are due over the window since the
//! last check, and when the next one fires. Firing is decided from wall-clock
//! time over the window, so a missed window (suspend, clock jump) fires once on
//! catch-up instead of being lost or replayed many times.
use crate::cron::{cron_error, next_after_in_range, Cron};
use crate::keys::{key_order, lemma_lt_asymmetric, lemma_lt_irreflexive, lemma_lt_total, lemma_lt_transitive, seq_lt, KeyOrder};
use crate::text::tokens;
use crate::timeutil::{rfc3339_from_unix_secs, spec_rfc3339};
use vstd::prelude::*;

verus! {

/// What a scheduled run may apply on its own.
#[derive(Debug, Clone, Copy, PartialEq, Eq)]
pub enum SchedulePolicy {
    PreviewOnly,
    ApplySafe,
    ApplyAll,
}

impl Default for SchedulePolicy {
    /// Unattended runs apply only what is safe unless told otherwise.
    fn default() -> (r: SchedulePolicy)
        ensures
            r == SchedulePolicy::ApplySafe,
    {
        SchedulePolicy::ApplySafe
    }
}

impl SchedulePolicy {
    pub fn is_preview_only(&self) -> (r: bool)
        ensures
            r == (*self is PreviewOnly),
    {
        match self {
            SchedulePolicy::PreviewOnly => true,
            _ => false,
        }
    }
}

/// A job's cron schedule.
#[derive(Debug, Clone)]
pub struct ScheduleConfig {
    pub enabled: bool,
    pub cron: String,
    /// Local time is UTC plus this many minutes; `None` means UTC.
    pub tz_offset_minutes: Option<i32>,
    pub policy: SchedulePolicy,
    pub skip_if_watched: bool,
}

pub open spec fn offset_of(cfg: ScheduleConfig) -> int {
    match cfg.tz_offset_minutes {
        Some(o) => o as int,
        None => 0,
    }
}

/// The cron a schedule runs on: `None` when it is disabled or its expression
/// does not parse.
pub open spec fn active_cron(cfg: ScheduleConfig) -> Option<Cron> {
    if cfg.enabled && cron_error(tokens(cfg.cron@)) is None {
        Some(choose|c: Cron| c.described_by(tokens(cfg.cron@)))
    } else {
        None
    }
}

/// One schedule over the window `(last, now]`: is it due, and which upcoming
/// fire it reports (its next fire after `now` when due, else its pending fire).
pub open spec fn contribution(cfg: ScheduleConfig, last: int, now: int) -> (bool, Option<int>) {
    match active_cron(cfg) {
        None => (false, None),
        Some(c) => match c.next_fire(last, offset_of(cfg)) {
            Some(f) => if f <= now {
                (true, c.next_fire(now, offset_of(cfg)))
            } else {
                (false, Some(f))
            },
            None => (false, None),
        },
    }
}

pub open spec fn min_opt(a: Option<int>, b: Option<int>) -> Option<int> {
    match (a, b) {
        (Some(x), Some(y)) => Some(if x <= y { x } else { y }),
        (Some(x), None) => Some(x),
        (None, y) => y,
    }
}

/// The indices of the due schedules, in order, and the earliest reported
/// upcoming fire.
pub open spec fn evaluation(s: Seq<(String, ScheduleConfig)>, last: int, now: int) -> (Seq<usize>, Option<int>)
    decreases s.len(),
{
    if s.len() == 0 {
        (Seq::empty(), None)
    } else {
        let prev = evaluation(s.drop_last(), last, now);
        let c = contribution(s.last().1, last, now);
        (if c.0 {
            prev.0.push((s.len() - 1) as usize)
        } else {
            prev.0
        }, min_opt(prev.1, c.1))
    }
}

pub open spec fn opt_int(o: Option<i64>) -> Option<int> {
    match o {
        Some(x) => Some(x as int),
        None => None,
    }
}

/// Every schedule that will be evaluated keeps `next_after` within `i64`.
pub open spec fn window_in_range(s: Seq<(String, ScheduleConfig)>, last: int, now: int) -> bool {
    forall|i: int|
        0 <= i < s.len() && (#[trigger] active_cron(s[i].1)) is Some ==> next_after_in_range(last, offset_of(s[i].1))
            && next_after_in_range(now, offset_of(s[i].1))
}

proof fn lemma_same_fires(c1: Cron, c2: Cron, toks: Seq<Seq<char>>)
    requires
        c1.described_by(toks),
        c2.described_by(toks),
    ensures
        forall|m: int| #[trigger] c1.fires_at(m) == c2.fires_at(m),
{
}

proof fn lemma_same_scan(c1: Cron, c2: Cron, m: int, n: nat)
    requires
        forall|k: int| #[trigger] c1.fires_at(k) == c2.fires_at(k),
    ensures
        c1.scan_fire(m, n) == c2.scan_fire(m, n),
    decreases n,
{
    if n > 0 {
        lemma_same_scan(c1, c2, m + 1, (n - 1) as nat);
    }
}

/// A parsed schedule behaves as the one its configuration describes.
proof fn lemma_parsed_is_active(c: Cron, cfg: ScheduleConfig)
    requires
        cfg.enabled,
        cron_error(tokens(cfg.cron@)) is None,
        c.described_by(tokens(cfg.cron@)),
    ensures
        active_cron(cfg) is Some,
        forall|t: int, off: int| #[trigger] active_cron(cfg)->0.next_fire(t, off) == c.next_fire(t, off),
{
    let toks = tokens(cfg.cron@);
    let c2 = active_cron(cfg)->0;
    assert(c2.described_by(toks));
    lemma_same_fires(c, c2, toks);
    assert forall|t: int, off: int| #[trigger] c2.next_fire(t, off) == c.next_fire(t, off) by {
        lemma_same_scan(c, c2, crate::cron::local_minute(t, off) + 1, crate::cron::MAX_LOOKAHEAD_MIN as nat);
    }
}

/// Over the window `(last_tick, now]`: the indices of the schedules whose
/// fire landed in it, each at most once and in order, and the earliest
/// upcoming fire strictly after `now`. Disabled and unparseable schedules are
/// skipped.
pub fn evaluate(schedules: &[(String, ScheduleConfig)], last_tick: i64, now: i64) -> (r: (Vec<usize>, Option<i64>))
    requires
        window_in_range(schedules@, last_tick as int, now as int),
    ensures
        r.0@ == evaluation(schedules@, last_tick as int, now as int).0,
        opt_int(r.1) == evaluation(schedules@, last_tick as int, now as int).1,
        forall|a: int, b: int| 0 <= a < b < r.0@.len() ==> r.0@[a] < r.0@[b],
        forall|a: int| 0 <= a < r.0@.len() ==> r.0@[a] < schedules@.len(),
{
    let mut due: Vec<usize> = Vec::new();
    let mut earliest: Option<i64> = None;
    let mut i: usize = 0;
    while i < schedules.len()
        invariant
            i <= schedules@.len(),
            window_in_range(schedules@, last_tick as int, now as int),
            due@ == evaluation(schedules@.take(i as int), last_tick as int, now as int).0,
            opt_int(earliest) == evaluation(schedules@.take(i as int), last_tick as int, now as int).1,
            forall|a: int, b: int| 0 <= a < b < due@.len() ==> due@[a] < due@[b],
            forall|a: int| 0 <= a < due@.len() ==> due@[a] < i,
        decreases schedules@.len() - i,
    {
        let ghost pre = schedules@.take(i as int);
        let ghost nxt = schedules@.take(i + 1);
        proof {
            assert(nxt.drop_last() =~= pre);
            assert(nxt.last() == schedules@[i as int]);
        }
        let cfg = &schedules[i].1;
        if cfg.enabled {
            let off: i32 = match cfg.tz_offset_minutes {
                Some(o) => o,
                None => 0,
            };
            match Cron::parse(cfg.cron.as_str()) {
                Err(_) => {},
                Ok(cron) => {
                    proof {
                        lemma_parsed_is_active(cron, *cfg);
                        assert(active_cron(schedules@[i as int].1) is Some);
                    }
                    match cron.next_after(last_tick, off) {
                        Some(fire) => {
                            if fire <= now {
                                due.push(i);
                                match cron.next_after(now, off) {
                                    Some(nf) => {
                                        earliest = match earliest {
                                            Some(e) => Some(if e <= nf { e } else { nf }),
                                            None => Some(nf),
                                        };
                                    },
                                    None => {},
                                }
                            } else {
                                earliest = match earliest {
                                    Some(e) => Some(if e <= fire { e } else { fire }),
                                    None => Some(fire),
                                };
                            }
                        },
                        None => {},
                    }
                },
            }
        }
        i = i + 1;
    }
    proof {
        assert(schedules@.take(schedules@.len() as int) =~= schedules@);
    }
    (due, earliest)
}


/// A clock reading far enough from the ends of `i64` that the next-fire
/// search stays in range for every offset.
pub open spec fn clock_ok(t: int) -> bool {
    -0x1000_0000_0000_0000 <= t <= 0x1000_0000_0000_0000
}

pub fn clock_in_range(t: i64) -> (r: bool)
    ensures
        r == clock_ok(t as int),
        r ==> forall|off: int| i32::MIN <= off <= i32::MAX ==> #[trigger] next_after_in_range(t as int, off),
{
    -0x1000_0000_0000_0000i64 <= t && t <= 0x1000_0000_0000_0000i64
}

/// A schedule's next fire after `now`, as RFC3339 UTC: none when it is
/// paused, its cron does not parse or never fires, or the clock is out of
/// range.
pub open spec fn spec_next_run(cfg: ScheduleConfig, now: int) -> Option<Seq<char>> {
    match active_cron(cfg) {
        None => None,
        Some(c) => if clock_ok(now) {
            match c.next_fire(now, offset_of(cfg)) {
                Some(t) => Some(spec_rfc3339(t)),
                None => None,
            }
        } else {
            None
        },
    }
}

pub fn next_run_of(cfg: &ScheduleConfig, now: i64) -> (r: Option<String>)
    ensures
        match spec_next_run(*cfg, now as int) {
            Some(s) => r matches Some(x) && x@ == s,
            None => r is None,
        },
{
    if !cfg.enabled {
        return None;
    }
    let off: i32 = match cfg.tz_offset_minutes {
        Some(o) => o,
        None => 0,
    };
    match Cron::parse(cfg.cron.as_str()) {
        Err(_) => None,
        Ok(cron) => {
            proof {
                lemma_parsed_is_active(cron, *cfg);
            }
            if !clock_in_range(now) {
                return None;
            }
            match cron.next_after(now, off) {
                Some(t) => Some(rfc3339_from_unix_secs(t)),
                None => None,
            }
        },
    }
}

/// Whether view `i` is listed before view `j`: by next run, soonest first
/// (text order of the RFC3339 stamps), views without one last, ties kept in
/// their given order.
pub open spec fn listed_before(next: Seq<Option<String>>, i: int, j: int) -> bool {
    match (next[i], next[j]) {
        (Some(x), Some(y)) => seq_lt(x@, y@) || (x@ == y@ && i < j),
        (Some(_), None) => true,
        (None, Some(_)) => false,
        (None, None) => i < j,
    }
}

pub open spec fn listed_in_order(next: Seq<Option<String>>, s: Seq<usize>) -> bool {
    forall|a: int, b: int| 0 <= a < b < s.len() ==> listed_before(next, #[trigger] s[a] as int, #[trigger] s[b] as int)
}

proof fn lemma_listed_order(next: Seq<Option<String>>, i: int, j: int, k: int)
    ensures
        !listed_before(next, i, i),
        listed_before(next, i, j) ==> !listed_before(next, j, i),
        i != j ==> listed_before(next, i, j) || listed_before(next, j, i),
        listed_before(next, i, j) && listed_before(next, j, k) ==> listed_before(next, i, k),
{
    match next[i] {
        Some(x) => lemma_lt_irreflexive(x@),
        None => {},
    }
    match (next[i], next[j]) {
        (Some(x), Some(y)) => {
            lemma_lt_irreflexive(x@);
            lemma_lt_asymmetric(x@, y@);
            lemma_lt_total(x@, y@);
        },
        _ => {},
    }
    match (next[i], next[j], next[k]) {
        (Some(x), Some(y), Some(z)) => {
            if seq_lt(x@, y@) && seq_lt(y@, z@) {
                lemma_lt_transitive(x@, y@, z@);
            }
        },
        _ => {},
    }
}

fn listed_before_exec(next: &Vec<Option<String>>, i: usize, j: usize) -> (r: bool)
    requires
        i < next@.len(),
        j < next@.len(),
    ensures
        r == listed_before(next@, i as int, j as int),
{
    match (&next[i], &next[j]) {
        (Some(x), Some(y)) => {
            proof {
                lemma_lt_asymmetric(x@, y@);
                lemma_lt_irreflexive(x@);
            }
            let o = key_order(x.as_str(), y.as_str());
            let r = match o {
                KeyOrder::Less => true,
                KeyOrder::Equal => i < j,
                KeyOrder::Greater => false,
            };
            r
        },
        (Some(_), None) => true,
        (None, Some(_)) => false,
        (None, None) => i < j,
    }
}

/// The order in which schedule views are listed: a permutation of their
/// indices sorted by next run, soonest first, paused or unset ones last,
/// ties in their given order.
pub fn schedule_order(next: &Vec<Option<String>>) -> (r: Vec<usize>)
    ensures
        r@.len() == next@.len(),
        forall|x: usize| x < next@.len() ==> #[trigger] r@.contains(x),
        forall|a: int| 0 <= a < r@.len() ==> #[trigger] r@[a] < next@.len(),
        listed_in_order(next@, r@),
{
    let n = next.len();
    let mut v: Vec<usize> = Vec::new();
    let mut i: usize = 0;
    while i < n
        invariant
            i <= n,
            n == next@.len(),
            v@.len() == i,
            listed_in_order(next@, v@),
            forall|a: int| 0 <= a < v@.len() ==> #[trigger] v@[a] < i,
            forall|y: usize| #[trigger] v@.contains(y) <==> y < i,
        decreases n - i,
    {
        let ghost s = v@;
        let mut p: usize = 0;
        while p < v.len() && listed_before_exec(next, v[p], i)
            invariant
                p <= v@.len(),
                v@ == s,
                i < next@.len(),
                forall|a: int| 0 <= a < s.len() ==> #[trigger] s[a] < i,
                forall|q: int| 0 <= q < p ==> listed_before(next@, #[trigger] s[q] as int, i as int),
            decreases v@.len() - p,
        {
            p = p + 1;
        }
        proof {
            if p < s.len() {
                lemma_listed_order(next@, s[p as int] as int, i as int, i as int);
                assert forall|q: int| p <= q < s.len() implies listed_before(next@, i as int, #[trigger] s[q] as int) by {
                    if q > p {
                        assert(listed_before(next@, s[p as int] as int, s[q] as int));
                        lemma_listed_order(next@, i as int, s[p as int] as int, s[q] as int);
                    }
                }
            }
        }
        v.insert(p, i);
        proof {
            let t = v@;
            assert(t == s.insert(p as int, i));
            assert forall|a: int, b: int| 0 <= a < b < t.len() implies listed_before(next@, #[trigger] t[a] as int, #[trigger] t[b] as int) by {
                if b < p {
                    assert(t[a] == s[a] && t[b] == s[b]);
                } else if b == p {
                    assert(t[a] == s[a]);
                } else if a < p {
                    assert(t[a] == s[a] && t[b] == s[b - 1]);
                    lemma_listed_order(next@, s[a] as int, i as int, s[b - 1] as int);
                } else if a == p {
                    assert(t[b] == s[b - 1]);
                } else {
                    assert(t[a] == s[a - 1] && t[b] == s[b - 1]);
                }
            }
            assert forall|y: usize| #[trigger] t.contains(y) <==> y < i + 1 by {
                if t.contains(y) {
                    let a = choose|a: int| 0 <= a < t.len() && t[a] == y;
                    if a < p {
                        assert(s[a] == y);
                        assert(s.contains(y));
                    } else if a > p {
                        assert(s[a - 1] == y);
                        assert(s.contains(y));
                    }
                }
                if y < i {
                    assert(s.contains(y));
                    let a = choose|a: int| 0 <= a < s.len() && s[a] == y;
                    if a < p {
                        assert(t[a] == y);
                    } else {
                        assert(t[a + 1] == y);
                    }
                } else if y == i {
                    assert(t[p as int] == i);
                }
            }
            assert forall|a: int| 0 <= a < t.len() implies #[trigger] t[a] < i + 1 by {
                if a < p {
                    assert(t[a] == s[a]);
                } else if a > p {
                    assert(t[a] == s[a - 1]);
                }
            }
        }
        i = i + 1;
    }
    v
}

} // verus!
