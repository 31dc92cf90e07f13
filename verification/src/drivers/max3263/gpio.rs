//! The pins of the MAX3263 family, each in the service of one of the
//! alternative functions of the chip.
use core::marker::PhantomData;
use vstd::prelude::*;

verus! {

pub struct AF0 {

}

pub struct AF1 {

}

pub struct AF2 {

}

pub struct AF3 {

}

pub struct AF4 {

}

/// Types which represent alternative functions. The trait serves no purpose
/// but to restrict which types can stand for the alternative function of a
/// pin.
pub trait AlternativeFunction {

}

impl AlternativeFunction for AF0 {

}

impl AlternativeFunction for AF1 {

}

impl AlternativeFunction for AF2 {

}

impl AlternativeFunction for AF3 {

}

impl AlternativeFunction for AF4 {

}

/// Number of ports of the chip.
pub const PORT_COUNT: u8 = 9;

/// Number of pins of every port but the last.
pub const PINS_PER_PORT: u8 = 8;

/// Number of pins of the last port.
pub const PINS_OF_LAST_PORT: u8 = 2;

/// Whether the chip has a pin `index` on port `port`.
pub open spec fn is_pin(port: u8, index: u8) -> bool {
    (port < PORT_COUNT - 1 && index < PINS_PER_PORT) || (port == PORT_COUNT - 1 && index
        < PINS_OF_LAST_PORT)
}

/// Whether the chip has a pin `index` on port `port`.
pub fn has_pin(port: u8, index: u8) -> (has: bool)
    ensures
        has == is_pin(port, index),
{
    (port < PORT_COUNT - 1 && index < PINS_PER_PORT) || (port == PORT_COUNT - 1 && index
        < PINS_OF_LAST_PORT)
}

/// Pin `INDEX` of port `PORT`, in the service of the alternative function
/// `AF`.
pub struct Pin<AF: AlternativeFunction, const PORT: u8, const INDEX: u8> {
    _phantom: PhantomData<AF>,
}

} // verus!
