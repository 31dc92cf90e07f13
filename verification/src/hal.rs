//! Interfaces between drivers and the peripherals or buses below them.
pub mod doubles;
pub mod flash;
pub mod qspi;
pub mod serial;
pub mod spi;
pub mod time;
pub mod null;
pub mod update_signal;
