//! Scanning: the on-disk formats read by the scanners and the choices made
//! around them.
//!
//! Volume roots on NTFS are scanned through the MFT when the process has
//! administrator rights; everything else (subdirectories, other file systems,
//! no elevation) falls back to a parallel directory walk.
pub mod bytes;
pub mod mft;
pub mod walk;
pub mod win;

use vstd::prelude::*;

use crate::paths::{spec_volume_letter, volume_letter};

verus! {

#[derive(Clone, Copy, Debug, PartialEq, Eq, Structural)]
pub enum Method {
    Mft,
    Walk,
}

#[derive(Debug)]
pub struct ScanInfo {
    pub method: Method,
    /// Why the MFT scanner was not used, if it was attempted.
    pub fallback_reason: Option<String>,
}

/// Whether to try the MFT scanner first: when allowed and the path is a
/// volume root.
pub fn try_mft_first(path: &str, allow_mft: bool) -> (r: bool)
    ensures
        r == (allow_mft && spec_volume_letter(path@) is Some),
{
    allow_mft && volume_letter(path).is_some()
}

/// What the scan does after the MFT scanner failed.
#[derive(Clone, Copy, Debug, PartialEq, Eq, Structural)]
pub enum ScanStep {
    /// Report the MFT scanner's error: the scan was cancelled.
    Fail,
    /// Reset the progress counters, keep the error as the reason the MFT
    /// scanner was not used, and walk the directories instead.
    Walk,
}

/// After the MFT scanner failed: a cancelled scan ends with that error,
/// any other failure falls back to walking the directories.
pub fn after_mft_error(cancelled: bool) -> (s: ScanStep)
    ensures
        s == if cancelled {
            ScanStep::Fail
        } else {
            ScanStep::Walk
        },
{
    if cancelled {
        ScanStep::Fail
    } else {
        ScanStep::Walk
    }
}

} // verus!
