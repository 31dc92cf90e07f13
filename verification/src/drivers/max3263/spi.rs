//! SPI driver for the MAX32631: how the clock of the peripheral is derived
//! from the clock of the system. Only four-wire SPI over the SPIM1
//! peripheral is supported.
use crate::drivers::max3263::gpio::AF0;
use crate::drivers::max3263::gpio::Pin;
use vstd::prelude::*;
use vstd::std_specs::ops::AddSpecImpl;
use vstd::std_specs::ops::SubSpecImpl;

verus! {

/// A pin which may be used as an SPIM1 clock pin.
pub trait ClkPin {

}

/// A pin which may be used as an SPIM1 chip select pin.
pub trait CsPin {

}

/// A pin which may be used as an SPIM1 IO0 (MOSI) pin.
pub trait Io0Pin {

}

/// A pin which may be used as an SPIM1 IO1 (MISO) pin.
pub trait Io1Pin {

}

impl ClkPin for Pin<AF0, 1, 0> {

}

impl CsPin for Pin<AF0, 1, 3> {

}

impl Io0Pin for Pin<AF0, 1, 1> {

}

impl Io1Pin for Pin<AF0, 1, 2> {

}

/// The SPI driver, with the pins it uses.
pub struct Spi<CK: ClkPin, CS: CsPin, IO0: Io0Pin, IO1: Io1Pin> {
    pub clock: CK,
    pub chip_select: CS,
    pub mosi: IO0,
    pub miso: IO1,
}

#[derive(Debug, Clone, Copy, PartialEq, Eq, Structural)]
pub enum SpiError {
    BadParameter,
}

/// By how many powers of two the clock manager divides the system clock for
/// a peripheral, plus one; zero where the clock of the peripheral is off.
#[derive(Clone, Copy, PartialEq, Eq, Structural)]
pub struct ClkmanScale(pub u32);

/// The largest scale of the clock manager.
pub const MAX_SCALE: u32 = 0x0A;

impl ClkmanScale {
    /// The scale of a clock that is off.
    pub fn disabled() -> (scale: ClkmanScale)
        ensures
            scale == ClkmanScale(0),
    {
        ClkmanScale(0x00)
    }

    /// The scale to ask for where the driver is to choose one.
    pub fn auto() -> (scale: ClkmanScale)
        ensures
            scale == ClkmanScale(MAX_SCALE),
    {
        ClkmanScale(MAX_SCALE)
    }

}

impl core::ops::Sub<u32> for ClkmanScale {
    type Output = ClkmanScale;

    /// The scale `right` steps down.
    fn sub(self, right: u32) -> (scale: ClkmanScale) {
        ClkmanScale(self.0 - right)
    }
}

impl SubSpecImpl<u32> for ClkmanScale {
    open spec fn obeys_sub_spec() -> bool {
        true
    }

    open spec fn sub_req(self, right: u32) -> bool {
        right <= self.0 && self.0 - right <= MAX_SCALE
    }

    open spec fn sub_spec(self, right: u32) -> ClkmanScale {
        ClkmanScale((self.0 - right) as u32)
    }
}

impl core::ops::Add<u32> for ClkmanScale {
    type Output = ClkmanScale;

    /// The scale `right` steps up.
    fn add(self, right: u32) -> (scale: ClkmanScale) {
        ClkmanScale(self.0 + right)
    }
}

impl AddSpecImpl<u32> for ClkmanScale {
    open spec fn obeys_add_spec() -> bool {
        true
    }

    open spec fn add_req(self, right: u32) -> bool {
        self.0 + right <= MAX_SCALE
    }

    open spec fn add_spec(self, right: u32) -> ClkmanScale {
        ClkmanScale((self.0 + right) as u32)
    }
}

/// The fastest baud rate that a peripheral clock of scale `scale` allows, on
/// a system clock of `core_clock`: half the system clock, halved once for
/// each step of the scale.
pub open spec fn max_baud(core_clock: u32, scale: u32) -> u32 {
    ((core_clock >> scale) / 2) as u32
}

/// The scale that `choose_clock_scale` picks by itself: the first scale,
/// from `from` up, whose fastest baud rate is exactly `baud`, or the largest
/// scale where there is none.
pub open spec fn first_matching_scale(core_clock: u32, baud: u32, from: u32) -> u32
    decreases MAX_SCALE - from,
{
    if from >= MAX_SCALE || max_baud(core_clock, from) == baud {
        from
    } else {
        first_matching_scale(core_clock, baud, (from + 1) as u32)
    }
}

/// The frequency of a clock that the clock manager derives from a system
/// clock of `core_clock` at the scale `scale`.
pub open spec fn scaled_frequency(core_clock: u32, scale: u32) -> u32 {
    if scale == 0 {
        0
    } else {
        (core_clock / (1u32 << ((scale - 1) as u32))) as u32
    }
}

/// The number of peripheral clock cycles that the SPI clock stays high and
/// then low for a baud rate of `baud`, as the peripheral wants it written.
pub open spec fn clock_cycles(peripheral_clock: u32, baud: u32) -> Option<u32> {
    if peripheral_clock / 2 > baud {
        let cycles = peripheral_clock as int / (2 * baud);
        if cycles == 0 || cycles > 0x10 {
            None
        } else if cycles == 0x10 {
            Some(0u32)
        } else {
            Some(cycles as u32)
        }
    } else {
        Some(1u32)
    }
}

impl<CK: ClkPin, CS: CsPin, IO0: Io0Pin, IO1: Io1Pin> Spi<CK, CS, IO0, IO1> {
    /// The scale of the peripheral clock for a baud rate of `baud`. Asked
    /// for the automatic scale, the driver picks one, unless the baud rate
    /// is more than half the system clock. Any other scale is taken as it
    /// is, unless the baud rate is too fast for it.
    pub fn choose_clock_scale(requested: ClkmanScale, baud: u32, core_clock: u32) -> (result:
        Result<ClkmanScale, SpiError>)
        requires
            1 <= requested.0 <= MAX_SCALE,
        ensures
            requested.0 == MAX_SCALE ==> result == if baud > core_clock / 2 {
                Err::<ClkmanScale, SpiError>(SpiError::BadParameter)
            } else {
                Ok::<ClkmanScale, SpiError>(ClkmanScale(first_matching_scale(core_clock, baud, 0)))
            },
            requested.0 != MAX_SCALE ==> result == if baud > max_baud(
                core_clock,
                (requested.0 - 1) as u32,
            ) {
                Err::<ClkmanScale, SpiError>(SpiError::BadParameter)
            } else {
                Ok::<ClkmanScale, SpiError>(requested)
            },
    {
        if requested.0 == MAX_SCALE {
            if baud > core_clock / 2 {
                return Err(SpiError::BadParameter);
            }
            let mut value = ClkmanScale::disabled();
            loop
                invariant
                    value.0 <= MAX_SCALE,
                    first_matching_scale(core_clock, baud, value.0) == first_matching_scale(
                        core_clock,
                        baud,
                        0,
                    ),
                ensures
                    value.0 == first_matching_scale(core_clock, baud, 0),
                decreases MAX_SCALE - value.0,
            {
                let fastest = (core_clock >> value.0) / 2;
                if baud == fastest || value.0 == MAX_SCALE {
                    break ;
                }
                value = value + 1;
            }
            Ok(value)
        } else {
            let fastest = (core_clock >> (requested - 1).0) / 2;
            if baud > fastest {
                Err(SpiError::BadParameter)
            } else {
                Ok(requested)
            }
        }
    }

    /// The frequency of the peripheral clock at the scale `clock_scale`.
    pub fn sys_get_freq(clock_scale: ClkmanScale, core_clock: u32) -> (frequency: u32)
        requires
            clock_scale.0 <= MAX_SCALE,
        ensures
            frequency == scaled_frequency(core_clock, clock_scale.0),
    {
        if clock_scale.0 == 0 {
            0
        } else {
            let shift = clock_scale.0 - 1;
            assert(shift < 10 ==> (1u32 << shift) > 0) by (bit_vector);
            let divisor: u32 = 1 << shift;
            core_clock / divisor
        }
    }

    /// The high and low time of the SPI clock for a baud rate of `baud`, in
    /// cycles of the peripheral clock. A baud rate so slow that the time
    /// does not fit the peripheral is turned down.
    pub fn clock_settings(peripheral_clock: u32, baud: u32) -> (result: Result<u32, SpiError>)
        requires
            baud > 0,
        ensures
            match clock_cycles(peripheral_clock, baud) {
                Some(cycles) => result == Ok::<u32, SpiError>(cycles),
                None => result == Err::<u32, SpiError>(SpiError::BadParameter),
            },
    {
        if (peripheral_clock / 2) > baud {
            let value = peripheral_clock as u64 / (2 * baud as u64);
            if (value == 0) || (value > 0x10) {
                Err(SpiError::BadParameter)
            } else if value == 0x10 {
                Ok(0)
            } else {
                Ok(value as u32)
            }
        } else {
            Ok(1)
        }
    }

    /// The driver, once the settings of its clock are found. The pins are
    /// kept for as long as the driver lives.
    pub fn new(
        clock: CK,
        chip_select: CS,
        mosi: IO0,
        miso: IO1,
        clock_scale: ClkmanScale,
        baud: u32,
        core_clock: u32,
    ) -> (result: Result<(Self, u32), SpiError>)
        requires
            clock_scale.0 <= MAX_SCALE,
            baud > 0,
        ensures
            ({
                let peripheral_clock = scaled_frequency(core_clock, clock_scale.0);
                if peripheral_clock == 0 || (peripheral_clock == core_clock && peripheral_clock
                    / 2 < baud) {
                    result is Err
                } else {
                    match clock_cycles(peripheral_clock, baud) {
                        Some(cycles) => result matches Ok(made) && made.1 == cycles && made.0.clock
                            == clock && made.0.chip_select == chip_select && made.0.mosi == mosi
                            && made.0.miso == miso,
                        None => result is Err,
                    }
                }
            }),
    {
        let peripheral_clock = Self::sys_get_freq(clock_scale, core_clock);
        if (peripheral_clock == 0) || ((peripheral_clock == core_clock) && ((peripheral_clock / 2)
            < baud)) {
            return Err(SpiError::BadParameter);
        }
        match Self::clock_settings(peripheral_clock, baud) {
            Ok(cycles) => Ok((Spi { clock, chip_select, mosi, miso }, cycles)),
            Err(error) => Err(error),
        }
    }
}

} // verus!
