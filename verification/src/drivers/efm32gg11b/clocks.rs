//! The clock tree of the EFM32GG11B, as far as the drivers need it: the
//! high frequency clock and the peripheral clock derived from it.
use crate::hal::time::Hertz;
use crate::hal::time::MegaHertz;
use vstd::prelude::*;

verus! {

/// Frequency of the high frequency oscillator after reset, in hertz.
pub const HFRCO_STARTUP_FREQUENCY: u32 = 19_000_000;

/// The fastest clock that the peripherals take.
pub const PERIPHERAL_LIMIT: u32 = 50_000_000;

/// The fastest clock that the peripherals of group B take.
pub const PERIPHERAL_B_LIMIT: u32 = 72_000_000;

/// The clocks of the chip that have a frequency to ask for.
pub enum Clock {
    HfClk,
    HfPerClk,
}

/// What feeds the high frequency clock.
#[derive(Clone, Copy, Debug, PartialEq, Eq, Structural)]
pub enum HfClkClockSource {
    Hfrco,
    Hfxo,
    Lfrco,
    Lfxo,
    Hfrcodiv2,
    Ushfrco,
    Clkin0,
}

/// The clocks of the chip: what the prescalers of the high frequency clock
/// and of the peripheral clock hold.
pub struct Clocks {
    pub hf_prescaler: u32,
    pub hf_peripheral_prescaler: u32,
}

/// The prescaler that brings a clock of `frequency` down to `limit` or
/// below: a prescaler of `n` divides by `n + 1`.
pub open spec fn spec_prescaler(frequency: u32, limit: u32) -> u32 {
    let divisor = (frequency + limit - 1) / (limit as int);
    if divisor > 0 {
        (divisor - 1) as u32
    } else {
        0
    }
}

/// A clock of `frequency` behind a prescaler that holds `prescaler`.
pub open spec fn spec_prescaled(frequency: u32, prescaler: u32) -> u32 {
    (frequency as int / (1 + prescaler)) as u32
}

impl Clocks {
    /// The prescaler that brings a clock of `frequency` down to `limit` or
    /// below.
    pub fn prescaler(frequency: Hertz, limit: u32) -> (prescaler: u32)
        requires
            limit > 0,
        ensures
            prescaler == spec_prescaler(frequency.0, limit),
    {
        let divisor = (frequency.0 as u64 + limit as u64 - 1) / limit as u64;
        if divisor > 0 {
            (divisor - 1) as u32
        } else {
            0
        }
    }

    /// The three prescalers of the peripheral clocks for a high frequency
    /// clock of `frequency`: those of the groups A and C, and that of group
    /// B.
    pub fn set_prescalers(frequency: MegaHertz) -> (prescalers: (u32, u32, u32))
        requires
            frequency.0 * 1_000_000 <= u32::MAX,
        ensures
            prescalers.0 == spec_prescaler((frequency.0 * 1_000_000) as u32, PERIPHERAL_LIMIT),
            prescalers.1 == spec_prescaler((frequency.0 * 1_000_000) as u32, PERIPHERAL_B_LIMIT),
            prescalers.2 == prescalers.0,
    {
        let hertz = frequency.hertz();
        let divisor = Self::prescaler(hertz, PERIPHERAL_LIMIT);
        (divisor, Self::prescaler(hertz, PERIPHERAL_B_LIMIT), divisor)
    }

    /// Frequency of the high frequency clock, fed by the oscillator at its
    /// startup frequency.
    pub fn get_frequency_hfclk(&self) -> (frequency: Hertz)
        requires
            self.hf_prescaler < u32::MAX,
        ensures
            frequency.0 == spec_prescaled(HFRCO_STARTUP_FREQUENCY, self.hf_prescaler),
    {
        let scale = 1 + self.hf_prescaler;
        Hertz(HFRCO_STARTUP_FREQUENCY / scale)
    }

    /// Frequency of the peripheral clock.
    pub fn get_frequency_hfperclk(&self) -> (frequency: Hertz)
        requires
            self.hf_prescaler < u32::MAX,
            self.hf_peripheral_prescaler < u32::MAX,
        ensures
            frequency.0 == spec_prescaled(
                spec_prescaled(HFRCO_STARTUP_FREQUENCY, self.hf_prescaler),
                self.hf_peripheral_prescaler,
            ),
    {
        let hfclk_frequency = self.get_frequency_hfclk();
        let scale = 1 + self.hf_peripheral_prescaler;
        Hertz(hfclk_frequency.0 / scale)
    }

    /// Frequency of `clock`.
    pub fn get_frequency(&self, clock: Clock) -> (frequency: Hertz)
        requires
            self.hf_prescaler < u32::MAX,
            self.hf_peripheral_prescaler < u32::MAX,
        ensures
            frequency.0 == match clock {
                Clock::HfClk => spec_prescaled(HFRCO_STARTUP_FREQUENCY, self.hf_prescaler),
                Clock::HfPerClk => spec_prescaled(
                    spec_prescaled(HFRCO_STARTUP_FREQUENCY, self.hf_prescaler),
                    self.hf_peripheral_prescaler,
                ),
            },
    {
        match clock {
            Clock::HfClk => self.get_frequency_hfclk(),
            Clock::HfPerClk => self.get_frequency_hfperclk(),
        }
    }
}

} // verus!
