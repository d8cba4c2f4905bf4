//! The life-cycle state of a download.
use vstd::prelude::*;

verus! {

/// Where a download stands.
#[derive(Debug, Clone, Copy, PartialEq, Eq, Structural)]
pub enum DownloadState {
    Queued,
    Connecting,
    Downloading,
    Paused,
    Finished,
    Error,
    Moving,
}

} // verus!
