//! The vocabulary of the garbage collector.

use vstd::prelude::*;

verus! {

/// A block whose pages are younger than this on average, in seconds, is hot:
/// one day.
pub const HOTAGEKEY: u32 = 60 * 60 * 24;

/// A block whose pages are older than this on average, in seconds, is cold:
/// fourteen days.
pub const COLDAGEKEY: u32 = 60 * 60 * 24 * 14;

/// When and on what a collection runs.
#[derive(Clone, Copy, Debug, PartialEq, Eq, Structural)]
pub enum GCStrategy {
    /// In the foreground, on the critical path.
    Forward,
    /// In the background.
    BackgroundSimple,
    /// In the background, for cold blocks.
    BackgroundCold,
}

/// The state of one page.
#[derive(Clone, Copy, Debug, PartialEq, Eq, Structural)]
pub enum PageUsedStatus {
    /// Erased and not written since.
    Clean,
    /// Written, and no longer live.
    Dirty,
    /// Live, and owned by the inode with this number.
    Busy(u32),
}

} // verus!
