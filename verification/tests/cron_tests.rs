use fast_file_sync::cron::Cron;
use fast_file_sync::scheduler::{evaluate, ScheduleConfig, SchedulePolicy};
use fast_file_sync::timeutil::rfc3339_from_unix_secs;

/// 2026-01-01T00:00:00Z (a Thursday).
const JAN1: i64 = 1_767_225_600;
const SECS_PER_DAY: i64 = 86_400;

fn fire_str(cron: &str, now: i64, offset: i32) -> String {
    let c = Cron::parse(cron).unwrap();
    rfc3339_from_unix_secs(c.next_after(now, offset).unwrap())
}

#[test]
fn wildcard_fires_next_minute() {
    let now = JAN1 + 12 * 3600 + 34 * 60 + 56;
    assert_eq!(fire_str("* * * * *", now, 0), "2026-01-01T12:35:00Z");
}

#[test]
fn daily_2am_utc() {
    assert_eq!(fire_str("0 2 * * *", JAN1, 0), "2026-01-01T02:00:00Z");
}

#[test]
fn already_passed_today_rolls_to_tomorrow() {
    let now = JAN1 + 3 * 3600;
    assert_eq!(fire_str("0 2 * * *", now, 0), "2026-01-02T02:00:00Z");
}

#[test]
fn offset_shifts_local_evaluation() {
    assert_eq!(fire_str("30 3 * * *", JAN1, 120), "2026-01-01T01:30:00Z");
}

#[test]
fn negative_offset_evaluates_west_of_utc() {
    assert_eq!(fire_str("0 23 * * *", JAN1, -300), "2026-01-01T04:00:00Z");
}

#[test]
fn every_15_minutes() {
    let now = JAN1 + 7 * 60;
    assert_eq!(fire_str("*/15 * * * *", now, 0), "2026-01-01T00:15:00Z");
}

#[test]
fn step_from_offset_start() {
    let now = JAN1 + 6 * 60;
    assert_eq!(fire_str("5/15 * * * *", now, 0), "2026-01-01T00:20:00Z");
}

#[test]
fn dom_dow_or_rule_takes_the_earlier() {
    let jan2 = JAN1 + SECS_PER_DAY;
    assert_eq!(fire_str("0 0 1 * 1", jan2, 0), "2026-01-05T00:00:00Z");
}

#[test]
fn sunday_is_zero_and_seven() {
    let c0 = Cron::parse("0 0 * * 0").unwrap();
    let c7 = Cron::parse("0 0 * * 7").unwrap();
    let f0 = c0.next_after(JAN1, 0).unwrap();
    let f7 = c7.next_after(JAN1, 0).unwrap();
    assert_eq!(rfc3339_from_unix_secs(f0), "2026-01-04T00:00:00Z");
    assert_eq!(f0, f7, "0 and 7 both mean Sunday");
}

#[test]
fn range_and_list() {
    let sat = JAN1 + 2 * SECS_PER_DAY;
    assert_eq!(fire_str("0 9 * * 1-5", sat, 0), "2026-01-05T09:00:00Z");
}

#[test]
fn unsatisfiable_returns_none() {
    let c = Cron::parse("0 0 30 2 *").unwrap();
    assert!(c.next_after(JAN1, 0).is_none());
}

#[test]
fn parse_rejects_bad_expressions() {
    assert!(Cron::parse("* * * *").is_err(), "4 fields");
    assert!(Cron::parse("* * * * * *").is_err(), "6 fields");
    assert!(Cron::parse("60 * * * *").is_err(), "minute > 59");
    assert!(Cron::parse("* 24 * * *").is_err(), "hour > 23");
    assert!(Cron::parse("* * 0 * *").is_err(), "day-of-month < 1");
    assert!(Cron::parse("* * * 13 *").is_err(), "month > 12");
    assert!(Cron::parse("* * * * 8").is_err(), "day-of-week > 7");
    assert!(Cron::parse("*/0 * * * *").is_err(), "zero step");
    assert!(Cron::parse("").is_err(), "empty");
    assert!(Cron::parse("x * * * *").is_err(), "non-numeric");
}

#[test]
fn parse_accepts_common_expressions() {
    for ok in ["* * * * *", "0 2 * * *", "*/15 * * * *", "0 0 1 * *", "0 9 * * 1-5", "30 3,15 * * *", "0 0 * * 0"] {
        assert!(Cron::parse(ok).is_ok(), "should parse: {ok}");
    }
}

#[test]
fn parse_errors_name_the_field() {
    assert_eq!(
        Cron::parse("* * * *").unwrap_err(),
        "cron needs exactly 5 fields (minute hour day-of-month month day-of-week), got 4"
    );
    assert_eq!(Cron::parse("60 * * * *").unwrap_err(), "minute: '60' out of range 0-59");
    assert_eq!(Cron::parse("* * * 1-x *").unwrap_err(), "month: bad range end 'x'");
    assert_eq!(Cron::parse("*/0 * * * *").unwrap_err(), "minute: step must be > 0");
    assert_eq!(Cron::parse("* * * * 9").unwrap_err(), "day-of-week: '9' out of range 0-7");
}

#[test]
fn next_fire_is_strictly_after_now_on_a_minute_boundary() {
    let c = Cron::parse("* * * * *").unwrap();
    let on_the_minute = JAN1 + 600;
    assert_eq!(c.next_after(on_the_minute, 0), Some(on_the_minute + 60));
    let t = c.next_after(on_the_minute + 1, 0).unwrap();
    assert!(t > on_the_minute + 1);
    assert_eq!(t % 60, 0);
}

// ---- the scheduling decision ----

fn sched(cron: &str) -> (String, ScheduleConfig) {
    (
        "job".to_string(),
        ScheduleConfig {
            enabled: true,
            cron: cron.to_string(),
            tz_offset_minutes: Some(0),
            policy: SchedulePolicy::ApplyAll,
            skip_if_watched: false,
        },
    )
}

#[test]
fn fires_when_the_minute_passed_in_window() {
    let s = vec![sched("0 2 * * *")];
    let last = JAN1 + 2 * 3600 - 30;
    let now = JAN1 + 2 * 3600 + 5;
    let (due, _) = evaluate(&s, last, now);
    assert_eq!(due, vec![0]);
}

#[test]
fn not_due_before_the_minute_and_reports_earliest() {
    let s = vec![sched("0 2 * * *")];
    let last = JAN1 + 3600;
    let now = JAN1 + 3600 + 30;
    let (due, earliest) = evaluate(&s, last, now);
    assert!(due.is_empty());
    assert_eq!(earliest, Some(JAN1 + 2 * 3600), "today's 02:00");
}

#[test]
fn disabled_schedule_never_fires() {
    let mut s = vec![sched("* * * * *")];
    s[0].1.enabled = false;
    let (due, earliest) = evaluate(&s, JAN1, JAN1 + 120);
    assert!(due.is_empty());
    assert!(earliest.is_none());
}

#[test]
fn bad_cron_is_skipped_not_fatal() {
    let s = vec![sched("nonsense"), sched("* * * * *")];
    let (due, _) = evaluate(&s, JAN1, JAN1 + 120);
    assert_eq!(due, vec![1], "the unparseable schedule is skipped, not fatal");
}

#[test]
fn long_gap_fires_a_single_catch_up_not_a_storm() {
    let s = vec![sched("* * * * *")];
    let (due, _) = evaluate(&s, JAN1, JAN1 + 8 * 3600);
    assert_eq!(due, vec![0]);
}

#[test]
fn multiple_due_schedules_all_fire() {
    let s = vec![sched("0 2 * * *"), sched("* * * * *")];
    let last = JAN1 + 2 * 3600 - 30;
    let now = JAN1 + 2 * 3600 + 5;
    let (due, _) = evaluate(&s, last, now);
    assert_eq!(due, vec![0, 1]);
}

#[test]
fn due_schedule_reports_its_following_fire() {
    let s = vec![sched("0 2 * * *")];
    let last = JAN1 + 2 * 3600 - 30;
    let now = JAN1 + 2 * 3600 + 5;
    let (_, earliest) = evaluate(&s, last, now);
    assert_eq!(earliest, Some(JAN1 + SECS_PER_DAY + 2 * 3600), "tomorrow's 02:00");
}

#[test]
fn preview_only_policy_is_recognised() {
    assert!(SchedulePolicy::PreviewOnly.is_preview_only());
    assert!(!SchedulePolicy::ApplySafe.is_preview_only());
    assert!(!SchedulePolicy::ApplyAll.is_preview_only());
}

#[test]
fn start_with_step_one_runs_to_the_field_maximum() {
    // `a/n` means `a-max/n`, so `5/1` is every minute from 5 to 59.
    for now in [JAN1, JAN1 + 6 * 60 + 30, JAN1 + 58 * 60 + 1, JAN1 + 59 * 60 + 5] {
        assert_eq!(fire_str("5/1 * * * *", now, 0), fire_str("5-59 * * * *", now, 0));
    }
    assert_eq!(fire_str("5/1 * * * *", JAN1 + 6 * 60 + 30, 0), "2026-01-01T00:07:00Z");
    assert_eq!(fire_str("5/1 * * * *", JAN1 + 29 * 60 + 30, 0), "2026-01-01T00:30:00Z");
    assert_eq!(fire_str("5/1 * * * *", JAN1 + 59 * 60, 0), "2026-01-01T01:05:00Z");
    // A bare value without a step is that value alone.
    assert_eq!(fire_str("5 * * * *", JAN1 + 6 * 60, 0), "2026-01-01T01:05:00Z");
}
