//! The listing-level error taxonomy, and the two failure mappers: one over
//! the OS-reported category of an I/O failure, one over the free text that an
//! external "open with the default application" tool hands back.

use vstd::prelude::*;

use crate::strings::contains_seq;
use crate::strings::contains_str;
use crate::strings::lower_of;
use crate::strings::to_lower;

verus! {

/// Why opening a file with the OS default handler failed. A best-effort
/// classification sniffed out of the tool's message text, not a guaranteed
/// one.
#[derive(Debug, Clone, Copy, PartialEq, Eq, Structural)]
pub enum OpenFailedReason {
    PermissionDenied,
    NotFound,
    NoDefaultApp,
    Unknown,
}

/// The classification [`OpenFailedReason::from_error`] returns for a given
/// failure text: case-insensitive substring matching, first match wins.
pub open spec fn spec_open_failed_reason(err: Seq<char>) -> OpenFailedReason {
    let lower = lower_of(err);
    if contains_seq(lower, "permission"@) || contains_seq(lower, "access denied"@) {
        OpenFailedReason::PermissionDenied
    } else if contains_seq(lower, "not found"@) || contains_seq(lower, "no such file"@) {
        OpenFailedReason::NotFound
    } else if contains_seq(lower, "no application"@) || contains_seq(lower, "no default"@) {
        OpenFailedReason::NoDefaultApp
    } else {
        OpenFailedReason::Unknown
    }
}

impl OpenFailedReason {
    /// Classifies an external tool's failure text by case-insensitive
    /// substring matching. A heuristic over free text: a message that names
    /// none of the known phrases comes back as `Unknown`.
    pub fn from_error(err: &str) -> (r: Self)
        ensures
            r == spec_open_failed_reason(err@),
    {
        let lower = to_lower(err);
        if contains_str(lower.as_str(), "permission") || contains_str(
            lower.as_str(),
            "access denied",
        ) {
            OpenFailedReason::PermissionDenied
        } else if contains_str(lower.as_str(), "not found") || contains_str(
            lower.as_str(),
            "no such file",
        ) {
            OpenFailedReason::NotFound
        } else if contains_str(lower.as_str(), "no application") || contains_str(
            lower.as_str(),
            "no default",
        ) {
            OpenFailedReason::NoDefaultApp
        } else {
            OpenFailedReason::Unknown
        }
    }
}

/// The OS-reported category of an I/O failure, as the caller saw it: the two
/// categories the listing boundary distinguishes, and a catch-all.
#[derive(Debug, Clone, Copy, PartialEq, Eq, Structural)]
pub enum IoErrorKind {
    NotFound,
    PermissionDenied,
    Other,
}

/// One failure of a listing or open call. Every kind carries enough context
/// (path, message) for user display; all are values, never aborts.
#[derive(Debug, Clone)]
#[non_exhaustive]
pub enum AppError {
    Io { message: String, path: Option<String> },
    PermissionDenied { path: String },
    NotFound { path: String },
    InvalidPath { message: String },
    OpenFailed { path: String, reason: OpenFailedReason },
}

/// Maps the OS-reported category of a failed directory open to the listing
/// error for `path`: "not found" and "permission denied" keep only the path;
/// anything else becomes the catch-all with the original message.
pub fn map_io_error(kind: IoErrorKind, message: String, path: String) -> (e: AppError)
    ensures
        e == match kind {
            IoErrorKind::NotFound => AppError::NotFound { path },
            IoErrorKind::PermissionDenied => AppError::PermissionDenied { path },
            IoErrorKind::Other => AppError::Io { message, path: Some(path) },
        },
{
    match kind {
        IoErrorKind::NotFound => AppError::NotFound { path },
        IoErrorKind::PermissionDenied => AppError::PermissionDenied { path },
        IoErrorKind::Other => AppError::Io { message, path: Some(path) },
    }
}

} // verus!
