//! Drivers for the supported chips.
pub mod efm32gg11b;
pub mod is25lp128f;
pub mod max3263;
pub mod micron;
pub mod stm32f4;
