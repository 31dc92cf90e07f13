//! Stand-ins for the interfaces of a board that lacks a peripheral.
use crate::hal::time::Milliseconds;
use crate::hal::update_signal::UpdateSignal;
use crate::hal::update_signal::UpdateSignalResult;
use vstd::prelude::*;
use vstd::std_specs::ops::AddSpecImpl;
use vstd::std_specs::ops::SubSpecImpl;

verus! {

/// Address type of a flash that is not there.
pub type NullAddress = usize;

/// A serial port that is not there.
pub struct NullSerial;

/// The error of a peripheral that is not there.
#[derive(Copy, Clone, Debug)]
pub struct NullError;

/// A flash that is not there.
pub struct NullFlash;

/// A clock that is not there.
pub struct NullSystick;

/// A moment on a clock that is not there. All such moments are the same.
#[derive(Copy, Clone, Debug)]
pub struct NullInstant;

impl core::ops::Sub<NullInstant> for NullInstant {
    type Output = Milliseconds;

    /// The time between two moments: none.
    fn sub(self, _earlier: NullInstant) -> (span: Milliseconds) {
        Milliseconds(0)
    }
}

impl SubSpecImpl<NullInstant> for NullInstant {
    open spec fn obeys_sub_spec() -> bool {
        true
    }

    open spec fn sub_req(self, earlier: NullInstant) -> bool {
        true
    }

    open spec fn sub_spec(self, earlier: NullInstant) -> Milliseconds {
        Milliseconds(0)
    }
}

impl core::ops::Add<Milliseconds> for NullInstant {
    type Output = NullInstant;

    /// The moment a span of time later: the same moment.
    fn add(self, _span: Milliseconds) -> (moment: NullInstant) {
        NullInstant
    }
}

impl AddSpecImpl<Milliseconds> for NullInstant {
    open spec fn obeys_add_spec() -> bool {
        true
    }

    open spec fn add_req(self, span: Milliseconds) -> bool {
        true
    }

    open spec fn add_spec(self, span: Milliseconds) -> NullInstant {
        NullInstant
    }
}

/// An update signal that always allows updates.
pub struct NullUpdateSignal;

impl UpdateSignal for NullUpdateSignal {
    fn should_update(&self) -> (signal: UpdateSignalResult)
        ensures
            signal is Any,
    {
        UpdateSignalResult::Any
    }
}

} // verus!
