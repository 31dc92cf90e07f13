//! An update signal that is fixed when it is made.
use crate::hal::update_signal::UpdateSignal;
use crate::hal::update_signal::UpdateSignalResult;
use vstd::prelude::*;

verus! {

/// A signal that always says the same.
pub struct FixedUpdateSignal {
    value: bool,
}

impl FixedUpdateSignal {
    /// Whether the signal allows updates.
    pub closed spec fn allows(&self) -> bool {
        self.value
    }

    /// A signal that allows updates exactly if `value` is true.
    pub fn new(value: bool) -> (signal: FixedUpdateSignal)
        ensures
            signal.allows() == value,
    {
        FixedUpdateSignal { value }
    }
}

impl UpdateSignal for FixedUpdateSignal {
    fn should_update(&self) -> (signal: UpdateSignalResult)
        ensures
            self.allows() ==> signal is Any,
            !self.allows() ==> signal is NoUpdate,
    {
        if self.value {
            UpdateSignalResult::Any
        } else {
            UpdateSignalResult::NoUpdate
        }
    }
}

} // verus!
