use vstd::prelude::*;

verus! {

/// The error taxonomy of the recycle bin. Engine operations return one of
/// these instead of aborting; the shell alone turns an error into a printed
/// message and a non-zero exit.
///
/// The variants `SourceNotFound`, `EntryMissing`, `MoveFailed`,
/// `LogWriteError` and `NotResolvable` describe filesystem failures: the
/// verified core never produces them itself, but the shell maps the
/// corresponding I/O failures onto them so that every caller sees one
/// taxonomy.
#[derive(Clone, Copy, PartialEq, Eq, Structural, Debug)]
pub enum RsycleError {
    /// A path could not be canonicalized (its parent chain is absent).
    NotResolvable,
    /// The file asked to be recycled does not exist.
    FileNotFound,
    /// The source of a physical move vanished before the move.
    SourceNotFound,
    /// A bin entry with the computed name already exists.
    DestinationExists,
    /// A live file already sits at the restore destination.
    DestinationOccupied,
    /// The bin entry to withdraw no longer exists.
    EntryMissing,
    /// The physical rename failed (permissions, cross-device).
    MoveFailed,
    /// The relocation log could not be written durably.
    LogWriteError,
    /// No log record matches the requested original path.
    NoSuchRecord,
    /// A bin entry carries a timestamp suffix but no log record names it.
    NoMatchingEntry,
}

} // verus!
