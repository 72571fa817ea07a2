use fast_file_sync::apply::conflict_name;
use fast_file_sync::baseline::Baseline;
use fast_file_sync::error::{IoFailure, SyncError};
use fast_file_sync::fsops::meta_matches;
use fast_file_sync::model::{EntryKind, Meta};
use fast_file_sync::pathutil::{case_fold, nfc_key, os_path, os_path_for, validate_representable};
use fast_file_sync::scan::{
    resolve_scan_threads, signed_nanos, unsafe_to_sync, ScanTree, MAX_SCAN_THREADS,
};
use fast_file_sync::settings::{settings_path, Settings};
use fast_file_sync::store::Store;
use fast_file_sync::timeutil::{now_rfc3339, rfc3339_from_unix_secs};
use std::collections::HashMap;
use std::path::Path;

fn meta() -> Meta {
    Meta {
        kind: EntryKind::File,
        size: 3,
        mtime_ns: 1_000,
        hash: None,
    }
}

#[test]
fn update_entry_none_removes() {
    let mut b = Baseline::default();
    b.update_entry("x", Some(meta()));
    assert!(b.get("x").is_some());
    b.update_entry("x", None);
    assert!(b.get("x").is_none());
}

#[test]
fn meta_matches_detects_drift() {
    let a = Meta { kind: EntryKind::File, size: 10, mtime_ns: 100, hash: None };
    let b = Meta { kind: EntryKind::File, size: 10, mtime_ns: 100, hash: None };
    let c = Meta { kind: EntryKind::File, size: 11, mtime_ns: 100, hash: None };
    assert!(meta_matches(Some(&a), Some(&b), 0));
    assert!(!meta_matches(Some(&a), Some(&c), 0));
    assert!(!meta_matches(None, Some(&a), 0));
}

#[test]
fn conflict_name_keeps_dir_and_ext() {
    assert_eq!(conflict_name("a/b/c.txt", "B", 42), "a/b/c.sync-conflict-42-B.txt");
    assert_eq!(conflict_name("noext", "A", 7), "noext.sync-conflict-7-A");
}

fn with_ticker(ms: u64) -> Settings {
    Settings {
        scan_ticker_ms: ms,
        ..Default::default()
    }
}

#[test]
fn ticker_is_clamped_to_band() {
    assert_eq!(with_ticker(0).ticker_ms(), 30);
    assert_eq!(with_ticker(100_000).ticker_ms(), 2000);
    assert_eq!(with_ticker(250).ticker_ms(), 250);
}

#[test]
fn tree_depth_is_clamped_and_zero_means_off() {
    let depth = |d: usize| {
        Settings {
            scan_tree_depth: d,
            ..Default::default()
        }
        .tree_depth()
    };
    assert_eq!(depth(0), 0, "0 keeps the live tree off");
    assert_eq!(depth(1), 1);
    assert_eq!(depth(100), 8, "clamped to the sane max");
}

#[test]
fn gran_ms_converts_to_ns() {
    let s = Settings {
        mtime_gran_ms: 2000,
        ..Default::default()
    };
    assert_eq!(s.mtime_gran_ns(), 2_000_000_000);
    assert_eq!(Settings::default().mtime_gran_ns(), 0);
}

#[test]
fn settings_defaults_and_path() {
    let s = Settings::default();
    assert_eq!(s.scan_ticker_ms, 120);
    assert_eq!(s.scan_tree_depth, 1);
    assert_eq!(s.log_level, "info");
    assert_eq!(settings_path("/app"), "/app/settings.json");
    let huge = Settings { mtime_gran_ms: i64::MAX as u64, ..Default::default() };
    assert_eq!(huge.mtime_gran_ns(), i64::MAX, "saturates");
    // The millisecond count is read as i64 first, as an `as` cast reads it.
    let wrapped = Settings { mtime_gran_ms: u64::MAX, ..Default::default() };
    assert_eq!(wrapped.mtime_gran_ns(), -1_000_000);
}

fn snap_map(tree: &ScanTree) -> HashMap<String, u64> {
    tree.snapshot(64).into_iter().collect()
}

#[test]
fn scan_tree_buckets_by_top_level_folder() {
    let mut tree = ScanTree::new(1);
    tree.record("Photos/a.jpg", false);
    tree.record("Photos/2026/b.jpg", false);
    tree.record("Photos", true);
    tree.record("readme.txt", false);
    let map = snap_map(&tree);
    assert_eq!(map.get("Photos").copied(), Some(3));
    assert_eq!(map.get("").copied(), Some(1));
}

#[test]
fn scan_tree_depth_two_keys_two_segments() {
    let mut tree = ScanTree::new(2);
    tree.record("a/b/c.txt", false);
    tree.record("a/x.txt", false);
    tree.record("a/b", true);
    let map = snap_map(&tree);
    assert_eq!(map.get("a/b").copied(), Some(2));
    assert_eq!(map.get("a").copied(), Some(1));
}

#[test]
fn scan_tree_snapshot_orders_by_count_and_caps() {
    let mut tree = ScanTree::new(1);
    for _ in 0..3 {
        tree.record("b/x", false);
    }
    tree.record("a/x", false);
    tree.record("c/x", false);
    let snap = tree.snapshot(2);
    assert_eq!(snap.len(), 2);
    assert_eq!(snap[0], ("b".to_string(), 3));
    assert_eq!(snap[1], ("a".to_string(), 1), "ties break by path");
    tree.clear();
    assert!(tree.snapshot(10).is_empty());
}

#[test]
fn resolve_threads_auto_and_explicit() {
    let auto = resolve_scan_threads(0, None);
    assert!((4..=16).contains(&auto), "auto thread count in band: {auto}");
    assert_eq!(resolve_scan_threads(3, None), 3);
    assert_eq!(resolve_scan_threads(32, None), 32);
    assert_eq!(resolve_scan_threads(100_000, None), MAX_SCAN_THREADS);
    assert_eq!(resolve_scan_threads(0, Some(2)), 4);
    assert_eq!(resolve_scan_threads(0, Some(64)), 16);
    assert_eq!(resolve_scan_threads(0, Some(6)), 6);
}

#[test]
fn symlinks_and_reparse_points_are_unsafe() {
    assert!(unsafe_to_sync(true, None).is_some());
    assert!(unsafe_to_sync(false, None).is_none());
    assert!(unsafe_to_sync(false, Some(0x400)).is_some());
    assert!(unsafe_to_sync(false, Some(0x20)).is_none());
    assert_eq!(signed_nanos(false, 1_500), 1_500);
    assert_eq!(signed_nanos(true, 1_500), -1_500);
    assert_eq!(signed_nanos(false, u128::MAX), i64::MAX);
}

#[test]
fn nfc_key_uses_forward_slashes() {
    assert_eq!(nfc_key("a/b/c.txt"), "a/b/c.txt");
    assert_eq!(nfc_key("/a//b/c.txt"), "a/b/c.txt");
}

#[test]
fn nfc_normalizes_decomposed_forms() {
    let decomposed = "cafe\u{0301}";
    let composed = "caf\u{00e9}";
    assert_eq!(nfc_key(decomposed), nfc_key(composed));
    assert_eq!(nfc_key(decomposed), composed);
}

#[test]
fn os_path_round_trips_segments() {
    let root = "/root";
    let p = os_path(root, "a/b/c.txt");
    assert!(Path::new(&p).ends_with("c.txt"));
    assert!(Path::new(&p).starts_with(root));
    assert_eq!(p, "/root/a/b/c.txt");
}

#[test]
fn rejects_reserved_and_illegal_names() {
    assert!(validate_representable("a/CON/b.txt", true).is_err());
    assert!(validate_representable("a/b.txt", true).is_ok());
    assert!(validate_representable("a/na:me.txt", true).is_err());
    assert!(validate_representable("a/trailing .txt", true).is_ok());
    assert!(validate_representable("a/trailing ", true).is_err());
    // Elsewhere every key is representable.
    assert!(validate_representable("a/CON/na:me ", false).is_ok());
}

#[test]
fn case_fold_lowercases() {
    assert_eq!(case_fold("Photos/ÉTÉ.JPG"), "photos/été.jpg");
}

#[test]
fn epoch_is_unix_zero() {
    assert_eq!(rfc3339_from_unix_secs(0), "1970-01-01T00:00:00Z");
}

#[test]
fn known_timestamps_round_trip() {
    assert_eq!(rfc3339_from_unix_secs(946_684_800), "2000-01-01T00:00:00Z");
    assert_eq!(rfc3339_from_unix_secs(1_782_432_000), "2026-06-26T00:00:00Z");
    assert_eq!(
        rfc3339_from_unix_secs(1_782_432_000 + 14 * 3600 + 3 * 60 + 9),
        "2026-06-26T14:03:09Z"
    );
}

#[test]
fn pre_epoch_timestamps_use_floor_division() {
    assert_eq!(rfc3339_from_unix_secs(-1), "1969-12-31T23:59:59Z");
}

#[test]
fn now_has_rfc3339_shape() {
    let s = now_rfc3339();
    assert_eq!(s.len(), 20, "YYYY-MM-DDTHH:MM:SSZ is 20 chars: {s}");
    assert!(s.ends_with('Z'));
    assert_eq!(&s[4..5], "-");
    assert_eq!(&s[10..11], "T");
}

#[test]
fn pair_baseline_path_is_stable_across_root_edit() {
    let store = Store::new("/tmp/jobs".to_string());
    let job_id = "01JOBSTABLE0000000000000001";
    let pair_id = "01PAIRSTABLE000000000000001";
    let before = store.pair_baseline_path(job_id, pair_id);
    let after = store.pair_baseline_path(job_id, pair_id);
    assert_eq!(before, after, "same job+pair id => same baseline path");
    assert!(Path::new(&before).ends_with(
        Path::new(job_id).join("pairs").join(pair_id).join("baseline.json")
    ));
}

#[test]
fn two_pairs_have_distinct_baseline_paths() {
    let store = Store::new("/tmp/jobs".to_string());
    let job_id = "01JOBTWO00000000000000000001";
    let pair_a = "01PAIRAAA0000000000000000001";
    let pair_b = "01PAIRBBB0000000000000000001";
    let pa = store.pair_baseline_path(job_id, pair_a);
    let pb = store.pair_baseline_path(job_id, pair_b);
    assert_ne!(pa, pb, "distinct pairs => distinct baseline files");
    assert!(pa.contains(pair_a));
    assert!(pb.contains(pair_b));
    let jd = store.job_dir(job_id);
    assert_eq!(
        Path::new(&pa).parent().unwrap().parent().unwrap(),
        Path::new(&jd).join("pairs")
    );
    assert_eq!(
        Path::new(&pb).parent().unwrap().parent().unwrap(),
        Path::new(&jd).join("pairs")
    );
    assert_eq!(store.job_file(job_id), "/tmp/jobs/01JOBTWO00000000000000000001/job.json");
}

#[test]
fn error_messages_and_classification() {
    let e = SyncError::from_io(
        "/x",
        false,
        &IoFailure { raw_os_error: Some(13), permission_denied: true, text: "denied".into() },
    );
    assert!(matches!(e, SyncError::PermissionDenied { .. }));
    assert_eq!(e.message(), "permission denied: /x");
    let e = SyncError::from_io(
        "/y",
        true,
        &IoFailure { raw_os_error: Some(32), permission_denied: false, text: "busy".into() },
    );
    assert!(e.is_transient());
    assert_eq!(e.message(), "file is locked (in use): /y");
    let e = SyncError::from_io(
        "/z",
        false,
        &IoFailure { raw_os_error: Some(32), permission_denied: false, text: "broken pipe".into() },
    );
    assert!(!e.is_transient());
    assert_eq!(e.message(), "io error at /z: broken pipe");
    let e = SyncError::from_io(
        "/w",
        true,
        &IoFailure { raw_os_error: Some(206), permission_denied: false, text: "long".into() },
    );
    assert_eq!(e.message(), "path too long for the target filesystem: /w");
    assert_eq!(SyncError::InvalidJob("bad".into()).message(), "invalid job: bad");
    assert_eq!(
        SyncError::NotRepresentable { path: "p".into(), reason: "r".into() }.message(),
        "path not representable on this OS: p (r)"
    );
}

#[test]
fn os_path_keeps_the_key_segments_after_the_root() {
    let p = os_path("/root", "a/b/c.txt");
    assert_eq!(p, "/root/a/b/c.txt");
    assert_eq!(nfc_key(p.strip_prefix("/root/").unwrap()), "a/b/c.txt");
    assert_eq!(os_path("/root/", "a//b/"), "/root/a/b");
    assert_eq!(os_path("/root", ""), "/root");
}

#[test]
fn now_is_not_before_the_epoch() {
    let s = now_rfc3339();
    assert!(s.as_str() >= "1970-01-01T00:00:00Z");
}

#[test]
fn os_path_for_windows_uses_backslashes() {
    assert_eq!(os_path_for("C:\\root", "a/b/c.txt", true), "C:\\root\\a\\b\\c.txt");
    assert_eq!(os_path_for("C:\\root\\", "a", true), "C:\\root\\a");
    assert_eq!(os_path_for("C:\\root/", "a", true), "C:\\root/a");
    assert_eq!(os_path_for("\\\\srv\\share", "x//y", true), "\\\\srv\\share\\x\\y");
}

#[test]
fn os_path_for_windows_bare_drive_gets_no_separator() {
    assert_eq!(os_path_for("C:", "a/b", true), "C:a\\b");
    assert_eq!(os_path_for("1:", "a", true), "1:\\a");
    assert_eq!(os_path_for("", "a/b", true), "a\\b");
}

#[test]
fn os_path_for_unix_treats_backslash_as_text() {
    assert_eq!(os_path_for("/r\\", "a", false), "/r\\/a");
    assert_eq!(os_path_for("C:", "a", false), "C:/a");
    assert_eq!(os_path_for("/r", "a/b", false), os_path("/r", "a/b"));
}

#[test]
fn baseline_paths_differ_per_pair_id() {
    let store = Store::new("/tmp/jobs".to_string());
    let pa = store.pair_baseline_path("J", "P1");
    let pb = store.pair_baseline_path("J", "P2");
    assert_ne!(pa, pb);
    assert_eq!(pa, "/tmp/jobs/J/pairs/P1/baseline.json");
    assert_eq!(pb, "/tmp/jobs/J/pairs/P2/baseline.json");
}
