//! Typed engine error. Distinguishes transient (locked), permanent (ACL, path
//! too long) and logic failures so the apply step can decide retry-vs-skip
//! and never count a failed operation as a success.
use crate::fmt::{push_str, string_from_chars};
use vstd::prelude::*;

verus! {

#[derive(Debug, Clone)]
pub enum SyncError {
    Io { path: String, msg: String },
    Locked { path: String },
    PermissionDenied { path: String },
    PathTooLong { path: String },
    NotRepresentable { path: String, reason: String },
    Unsupported { path: String, reason: String },
    InvalidJob(String),
    Other(String),
}

/// What the engine reads of a failed I/O operation: the raw OS error code,
/// if any, whether its kind is "permission denied", and its rendered text.
#[derive(Debug, Clone)]
pub struct IoFailure {
    pub raw_os_error: Option<i32>,
    pub permission_denied: bool,
    pub text: String,
}

/// The human-readable text of an error.
pub open spec fn error_text(e: SyncError) -> Seq<char> {
    match e {
        SyncError::Io { path, msg } => "io error at "@ + path@ + ": "@ + msg@,
        SyncError::Locked { path } => "file is locked (in use): "@ + path@,
        SyncError::PermissionDenied { path } => "permission denied: "@ + path@,
        SyncError::PathTooLong { path } => "path too long for the target filesystem: "@ + path@,
        SyncError::NotRepresentable { path, reason } => "path not representable on this OS: "@ + path@ + " ("@
            + reason@ + ")"@,
        SyncError::Unsupported { path, reason } => "unsupported entry "@ + path@ + ": "@ + reason@,
        SyncError::InvalidJob(m) => "invalid job: "@ + m@,
        SyncError::Other(m) => m@,
    }
}

/// How an I/O failure is classified: `0` locked, `1` permission denied,
/// `2` path too long, `3` any other I/O error. On Windows the sharing, lock,
/// access and path-length codes are recognised first.
pub open spec fn io_class(windows: bool, e: IoFailure) -> u8 {
    let code = e.raw_os_error;
    if windows && (code == Some(32i32) || code == Some(33i32)) {
        0
    } else if windows && code == Some(5i32) {
        1
    } else if windows && (code == Some(206i32) || code == Some(3i32)) {
        2
    } else if e.permission_denied {
        1
    } else {
        3
    }
}

impl SyncError {
    /// Classify an I/O failure against a path (`windows` selects the Windows
    /// error-code table).
    pub fn from_io(path: &str, windows: bool, e: &IoFailure) -> (r: SyncError)
        ensures
            match r {
                SyncError::Locked { path: p } => p@ == path@ && io_class(windows, *e) == 0,
                SyncError::PermissionDenied { path: p } => p@ == path@ && io_class(windows, *e) == 1,
                SyncError::PathTooLong { path: p } => p@ == path@ && io_class(windows, *e) == 2,
                SyncError::Io { path: p, msg } => p@ == path@ && msg@ == e.text@ && io_class(windows, *e) == 3,
                _ => false,
            },
    {
        let p = String::from_str(path);
        if windows {
            match e.raw_os_error {
                Some(code) => {
                    if code == 32 || code == 33 {
                        return SyncError::Locked { path: p };
                    } else if code == 5 {
                        return SyncError::PermissionDenied { path: p };
                    } else if code == 206 || code == 3 {
                        return SyncError::PathTooLong { path: p };
                    }
                },
                None => {},
            }
        }
        if e.permission_denied {
            SyncError::PermissionDenied { path: p }
        } else {
            SyncError::Io { path: p, msg: e.text.clone() }
        }
    }

    /// True when retrying later (e.g. a lock cleared) is sane.
    pub fn is_transient(&self) -> (r: bool)
        ensures
            r == (*self is Locked),
    {
        match self {
            SyncError::Locked { .. } => true,
            _ => false,
        }
    }

    /// The error's text.
    pub fn message(&self) -> (r: String)
        ensures
            r@ == error_text(*self),
    {
        let mut m: Vec<char> = Vec::new();
        match self {
            SyncError::Io { path, msg } => {
                push_str(&mut m, "io error at ");
                push_str(&mut m, path.as_str());
                push_str(&mut m, ": ");
                push_str(&mut m, msg.as_str());
            },
            SyncError::Locked { path } => {
                push_str(&mut m, "file is locked (in use): ");
                push_str(&mut m, path.as_str());
            },
            SyncError::PermissionDenied { path } => {
                push_str(&mut m, "permission denied: ");
                push_str(&mut m, path.as_str());
            },
            SyncError::PathTooLong { path } => {
                push_str(&mut m, "path too long for the target filesystem: ");
                push_str(&mut m, path.as_str());
            },
            SyncError::NotRepresentable { path, reason } => {
                push_str(&mut m, "path not representable on this OS: ");
                push_str(&mut m, path.as_str());
                push_str(&mut m, " (");
                push_str(&mut m, reason.as_str());
                push_str(&mut m, ")");
            },
            SyncError::Unsupported { path, reason } => {
                push_str(&mut m, "unsupported entry ");
                push_str(&mut m, path.as_str());
                push_str(&mut m, ": ");
                push_str(&mut m, reason.as_str());
            },
            SyncError::InvalidJob(x) => {
                push_str(&mut m, "invalid job: ");
                push_str(&mut m, x.as_str());
            },
            SyncError::Other(x) => {
                push_str(&mut m, x.as_str());
            },
        }
        string_from_chars(&m)
    }
}

} // verus!
