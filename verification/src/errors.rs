//! The error taxonomy of a scan, and the orchestrator's policy for how
//! far each failure propagates.

use vstd::prelude::*;

verus! {

/// What went wrong with one command-line argument.
#[derive(Clone, Copy, Debug, PartialEq, Eq, Structural)]
pub enum ArgIssue {
    /// A flag that needs a value was the last argument.
    MissingValue,
    /// A value did not parse as a number of the expected shape.
    NotANumber,
    /// An argument that is no known flag.
    UnexpectedArgument,
}

/// A scan failure.  I/O-backed variants carry only plain values; the
/// caller that performed the I/O keeps the underlying error for display.
#[derive(Debug)]
pub enum SearchError {
    /// A command-line argument was rejected; carries the offending
    /// argument bytes.
    CliArgParse { arg: Vec<u8>, issue: ArgIssue },
    /// A field of a memory-map line is not a hexadecimal number that
    /// fits the address type; carries the offending field bytes.
    ParseInt { val: Vec<u8> },
    /// A memory-map line does not have the expected shape.
    ParseLine,
    /// An I/O failure while working on one process.
    Io { pid: u32 },
    /// A permission-denied failure while working on one process.
    PermissionDenied { pid: u32 },
}

/// The spec-level image of a `SearchError`.
pub enum SearchErrorV {
    CliArgParse { arg: Seq<u8>, issue: ArgIssue },
    ParseInt { val: Seq<u8> },
    ParseLine,
    Io { pid: u32 },
    PermissionDenied { pid: u32 },
}

impl View for SearchError {
    type V = SearchErrorV;

    open spec fn view(&self) -> SearchErrorV {
        match self {
            SearchError::CliArgParse { arg, issue } => SearchErrorV::CliArgParse {
                arg: arg@,
                issue: *issue,
            },
            SearchError::ParseInt { val } => SearchErrorV::ParseInt { val: val@ },
            SearchError::ParseLine => SearchErrorV::ParseLine,
            SearchError::Io { pid } => SearchErrorV::Io { pid: *pid },
            SearchError::PermissionDenied { pid } => SearchErrorV::PermissionDenied { pid: *pid },
        }
    }
}

/// Sorts a per-process I/O failure into the taxonomy: permission denial
/// is kept distinct from every other I/O failure.
pub fn classify_pid_io_error(pid: u32, permission_denied: bool) -> (e: SearchError)
    ensures
        permission_denied ==> e@ == (SearchErrorV::PermissionDenied { pid }),
        !permission_denied ==> e@ == (SearchErrorV::Io { pid }),
{
    if permission_denied {
        SearchError::PermissionDenied { pid }
    } else {
        SearchError::Io { pid }
    }
}

/// What the orchestrator does with a failure met while scanning one
/// process.
#[derive(Clone, Copy, Debug, PartialEq, Eq, Structural)]
pub enum ErrorDisposition {
    /// The failure ends the whole run.
    Fatal,
    /// The failure is reported and that process is skipped.
    SkipPid,
}

/// The propagation policy: a failure on a process the caller explicitly
/// asked for is fatal; during an all-process scan, a failure confined to
/// one process is reported and that process is skipped.  Argument
/// failures predate any scan and are always fatal.
pub open spec fn spec_pid_error_disposition(explicit_target: bool, e: SearchErrorV) -> ErrorDisposition {
    if explicit_target {
        ErrorDisposition::Fatal
    } else {
        match e {
            SearchErrorV::CliArgParse { .. } => ErrorDisposition::Fatal,
            _ => ErrorDisposition::SkipPid,
        }
    }
}

/// Decides how far a failure met while scanning one process propagates.
pub fn pid_error_disposition(explicit_target: bool, e: &SearchError) -> (d: ErrorDisposition)
    ensures
        d == spec_pid_error_disposition(explicit_target, e@),
{
    if explicit_target {
        ErrorDisposition::Fatal
    } else {
        match e {
            SearchError::CliArgParse { .. } => ErrorDisposition::Fatal,
            _ => ErrorDisposition::SkipPid,
        }
    }
}

} // verus!
