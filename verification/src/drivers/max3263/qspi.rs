//! QSPI peripheral of the MAX3263 family.
use core::marker::PhantomData;
use vstd::prelude::*;

verus! {

/// A pin that can carry the clock of the peripheral.
pub trait ClkPin {

}

/// A pin that can select the chip.
pub trait CsPin {

}

pub trait Io0Pin {

}

pub trait Io1Pin {

}

/// The peripheral, with the pins it uses.
pub struct Qspi<PINS> {
    _phantom: PhantomData<PINS>,
}

impl<PINS> Qspi<PINS> {
    pub fn new() -> Self {
        Qspi { _phantom: PhantomData }
    }
}

} // verus!
