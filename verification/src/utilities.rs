//! Building blocks shared by the drivers.
pub mod bitwise;
pub mod iterator;
pub mod memory;
pub mod safety;
