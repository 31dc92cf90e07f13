//! Drivers for the MAX3263 family of microcontrollers.
pub mod flash;
pub mod gpio;
pub mod qspi;
pub mod spi;
