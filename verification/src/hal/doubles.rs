//! Stand-ins for hardware, for use where there is none.
pub mod chip;
pub mod flash;
pub mod qspi;
pub mod serial;
pub mod time;
