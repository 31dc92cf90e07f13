//! Whether a device should look for an update of its firmware.
use vstd::prelude::*;

verus! {

/// Indicates the state of an update signal.
pub enum UpdateSignalResult {
    /// Do not update.
    NoUpdate,
    /// Allow updates, if one is available.
    Any,
    /// Update using a specific image bank.
    Index(u32),
}

/// A source that says whether the device should update now.
pub trait UpdateSignal {
    /// What the signal says at the moment.
    fn should_update(&self) -> UpdateSignalResult;
}

} // verus!
