//! Hardware abstraction layer for embedded microcontrollers: flash memory
//! maps, the block-wise write algorithm of flash drivers, the command
//! protocol of QSPI NOR flash chips and the claim-once discipline of GPIO pins.
use vstd::prelude::*;

pub mod drivers;
pub mod hal;
pub mod utilities;

verus! {

/// Makes `nb::Error` known to the verifier, with the two variants that the
/// crate declares: `WouldBlock` for an operation that cannot finish yet, and
/// `Other` for one that failed with an error of the driver. Nothing is
/// claimed of any function of the crate.
#[verifier::external_type_specification]
#[verifier::reject_recursive_types(E)]
pub struct ExNbError<E>(nb::Error<E>);

} // verus!
