//! Drivers for chips made by Micron.
pub mod n25q128a_chip;
pub mod n25q128a_flash;
