//! Interface to a serial port.
use crate::hal::time::Milliseconds;
use vstd::prelude::*;

verus! {

/// A serial port that bytes can be read from.
pub trait Read {
    type Error;

    /// The next byte, if one has arrived.
    fn read(&mut self) -> Result<u8, nb::Error<Self::Error>>;
}

/// A serial port that text can be written to.
pub trait Write {
    type Error;

    fn write_str(&mut self, text: &str) -> Result<(), Self::Error>;
}

/// A serial port that waits for a byte, but not for ever.
pub trait TimeoutRead {
    type Error;

    /// The next byte, if one arrives within `timeout`.
    fn read_within(&mut self, timeout: Milliseconds) -> Result<u8, Self::Error>;
}

} // verus!
