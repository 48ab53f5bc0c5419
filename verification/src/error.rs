//! The conditions that end a run.

use vstd::prelude::*;

verus! {

/// A condition from which neither scanning nor tailing recovers. The caller
/// reports it once and stops.
#[derive(Clone, Copy, PartialEq, Eq, Structural, Debug)]
pub enum FatalError {
    /// A line of a recognised shape carries a timestamp that is not a calendar
    /// time written as `YYYY.MM.DD HH:MM:SS`.
    MalformedTimestamp,
    /// The timestamp names a wall-clock time that the local time zone skips.
    NoLocalTime,
    /// A line of the seek shape carries a number that is not a decimal numeral.
    MalformedNumber,
    /// The file holds fewer lines than the caller asked to skip.
    FileTooShort,
    /// The change notifications broke down.
    WatchFailed,
}

} // verus!
