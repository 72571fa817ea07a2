//! Global application settings: the user-facing defaults that are not per
//! job (scan threads, mtime granularity, live-progress ticker, live folder
//! tree depth, log level). A per-job value wins over these; these win over
//! the engine's built-in defaults.
use crate::pathutil::{main_separator, os_path_for};
use crate::store::joined;
use crate::timeutil::{clamp_i64, ms_to_ns};
use vstd::prelude::*;

verus! {

#[derive(Debug, Clone, PartialEq, Eq)]
pub struct Settings {
    /// Default scan walker threads per root; `0` => auto.
    pub scan_threads: usize,
    /// Default mtime comparison tolerance in milliseconds; `0` => the engine
    /// default.
    pub mtime_gran_ms: u64,
    /// Live scan-progress ticker interval in milliseconds (clamped at use).
    pub scan_ticker_ms: u64,
    /// How many leading path segments the live folder tree groups by; `0`
    /// turns it off (clamped at use).
    pub scan_tree_depth: usize,
    /// Filter directive for the diagnostic log.
    pub log_level: String,
}

pub fn default_ticker_ms() -> (r: u64)
    ensures
        r == 120,
{
    120
}

pub fn default_scan_tree_depth() -> (r: usize)
    ensures
        r == 1,
{
    1
}

pub fn default_log_level() -> (r: String)
    ensures
        r@ == "info"@,
{
    String::from_str("info")
}

impl Default for Settings {
    fn default() -> (r: Settings)
        ensures
            r.scan_threads == 0,
            r.mtime_gran_ms == 0,
            r.scan_ticker_ms == 120,
            r.scan_tree_depth == 1,
            r.log_level@ == "info"@,
    {
        Settings {
            scan_threads: 0,
            mtime_gran_ms: 0,
            scan_ticker_ms: default_ticker_ms(),
            scan_tree_depth: default_scan_tree_depth(),
            log_level: default_log_level(),
        }
    }
}

impl Settings {
    /// Ticker interval clamped to `30..=2000` ms: fast enough to feel live,
    /// slow enough not to flood the event channel.
    pub fn ticker_ms(&self) -> (r: u64)
        ensures
            r == if self.scan_ticker_ms < 30 {
                30
            } else if self.scan_ticker_ms > 2000 {
                2000
            } else {
                self.scan_ticker_ms
            },
    {
        if self.scan_ticker_ms < 30 {
            30
        } else if self.scan_ticker_ms > 2000 {
            2000
        } else {
            self.scan_ticker_ms
        }
    }

    /// The mtime granularity in nanoseconds (`0` => the engine default),
    /// saturating at the `i64` bounds.
    pub fn mtime_gran_ns(&self) -> (r: i64)
        ensures
            r == clamp_i64((self.mtime_gran_ms as i64) * 1_000_000),
    {
        ms_to_ns(self.mtime_gran_ms)
    }

    /// Live folder-tree depth, at most 8 (`0` keeps the tree off).
    pub fn tree_depth(&self) -> (r: usize)
        ensures
            r == if self.scan_tree_depth < 8 {
                self.scan_tree_depth
            } else {
                8
            },
    {
        if self.scan_tree_depth < 8 {
            self.scan_tree_depth
        } else {
            8
        }
    }
}

/// Where the settings live: `settings.json` in the app directory, joined by
/// the rules of the platform this runs on.
pub fn settings_path(app_dir: &str) -> (r: String)
    ensures
        r@ == joined(app_dir@, "settings.json"@, false) || r@ == joined(app_dir@, "settings.json"@, true),
{
    let windows = main_separator() == '\\';
    os_path_for(app_dir, "settings.json", windows)
}

} // verus!
