//! The pure part of the filesystem layer: the TOCTOU check that decides
//! whether the live state of a path still matches what a plan assumed.
use crate::model::{EntryKind, Meta};
use crate::reconcile::{mtime_close, opt_ref_meta, spec_mtime_close};
use vstd::prelude::*;

verus! {

/// Live state `cur` still matches the expected `exp`: both absent, or same
/// kind and (for anything but a directory) same size and mtime within `gran`.
pub open spec fn spec_meta_matches(cur: Option<Meta>, exp: Option<Meta>, gran: int) -> bool {
    match (cur, exp) {
        (None, None) => true,
        (Some(c), Some(e)) => c.kind == e.kind && (e.kind == EntryKind::Dir || (c.size == e.size
            && spec_mtime_close(c.mtime_ns as int, e.mtime_ns as int, gran))),
        _ => false,
    }
}

/// TOCTOU guard: does the live state still match what the plan assumed?
/// Directories ignore size and mtime (only the kind matters).
pub fn meta_matches(cur: Option<&Meta>, expected: Option<&Meta>, gran_ns: i64) -> (r: bool)
    ensures
        r == spec_meta_matches(opt_ref_meta(cur), opt_ref_meta(expected), gran_ns as int),
{
    match (cur, expected) {
        (None, None) => true,
        (Some(c), Some(e)) => c.kind == e.kind && (e.is_dir() || (c.size == e.size && mtime_close(
            c.mtime_ns,
            e.mtime_ns,
            gran_ns,
        ))),
        _ => false,
    }
}

} // verus!
