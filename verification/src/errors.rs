//! Failure kinds of repository operations.

use vstd::prelude::*;

verus! {

/// Everything a repository operation can fail with.
///
/// `PageNotFound` and `WaitedTooLong` surface to the requesting reader and
/// leave the timeline unaffected.  `RedoFailed` propagates a redo manager
/// failure verbatim.  `StorageError` reports a corrupt stored value; it is
/// not retried.  `MalformedRecord` is fatal for the WAL stream: the fan-out
/// could not interpret a decoded record.  `AlreadyExists` and
/// `UnknownTimeline` report misuse of the repository's timeline directory.
#[derive(Clone, Copy, Debug, PartialEq, Eq, Structural)]
pub enum RepositoryError {
    /// No version at-or-before the requested LSN, or a drop sentinel is in
    /// effect.
    PageNotFound,
    /// WAL has not been ingested up to the requested LSN.
    WaitedTooLong,
    /// The redo manager could not reconstruct the page.
    RedoFailed,
    /// The underlying store handed back something unusable.
    StorageError,
    /// The WAL fan-out rejected a decoded record it cannot interpret.
    MalformedRecord,
    /// Creating a timeline that already exists.
    AlreadyExists,
    /// Asking for a timeline that was never opened.
    UnknownTimeline,
}

} // verus!
