//! Arguments that drive a scan: the target path, the maximum directory
//! depth to open, and whether hidden entries are listed.

use vstd::prelude::*;

verus! {

/// The three inputs of a run: the starting path, the maximum number of
/// directory levels to open below the root (`0` shows only the root),
/// and whether entries whose name starts with `.` are included.
pub struct Args {
    /// The path of the root entry.
    pub target: String,
    /// Number of directory levels that may be opened below the root.
    pub deep: usize,
    /// Include hidden entries (names starting with `.`).
    pub all: bool,
}

} // verus!
