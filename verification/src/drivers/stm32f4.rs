//! Drivers for the stm32f4 family of microcontrollers.
pub mod qspi;
pub mod update_signal;
