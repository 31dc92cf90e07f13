//! Drivers for the EFM32GG11B microcontroller.
pub mod flash;
pub mod gpio;
pub mod clocks;
pub mod serial;
