//! Serial ports of the EFM32GG11B: which pins serve which port, and the
//! clock divider for the baud rate.
use crate::drivers::efm32gg11b::clocks::Clocks;
use crate::drivers::efm32gg11b::clocks::HFRCO_STARTUP_FREQUENCY;
use crate::drivers::efm32gg11b::clocks::spec_prescaled;
use vstd::prelude::*;

verus! {

/// A pin that can receive for the peripheral `USART`.
pub trait RxPin<USART> {

}

/// A pin that can transmit for the peripheral `USART`.
pub trait TxPin<USART> {

}

/// Bits per second on the line.
pub const BAUD_RATE: u32 = 115200;

/// Samples that the peripheral takes of each bit.
pub const OVERSAMPLE: u32 = 16;

/// The clock divider that gives the baud rate on a peripheral clock of
/// `frequency`, in 256ths.
pub open spec fn spec_clock_divider(frequency: u32) -> u32 {
    ((256 * frequency) / (OVERSAMPLE * BAUD_RATE - 256) as int) as u32
}

/// A serial port with the pins it uses.
pub struct Serial<U, TX: TxPin<U>, RX: RxPin<U>> {
    pub tx: TX,
    pub rx: RX,
    pub peripheral: U,
    /// What the clock divider of the peripheral has to hold.
    pub clock_divider: u32,
}

impl<U, TX: TxPin<U>, RX: RxPin<U>> Serial<U, TX, RX> {
    /// A serial port at the baud rate of the driver, on the high frequency
    /// clock as `clocks` gives it.
    pub fn new(peripheral: U, tx: TX, rx: RX, clocks: &Clocks) -> (serial: Self)
        requires
            clocks.hf_prescaler < u32::MAX,
        ensures
            serial.clock_divider == spec_clock_divider(
                spec_prescaled(HFRCO_STARTUP_FREQUENCY, clocks.hf_prescaler),
            ),
            serial.peripheral == peripheral,
            serial.tx == tx,
            serial.rx == rx,
    {
        let clock_divider = Self::set_baud_rate(clocks);
        Serial { tx, rx, peripheral, clock_divider }
    }

    /// The clock divider for the baud rate of the driver.
    pub fn set_baud_rate(clocks: &Clocks) -> (divider: u32)
        requires
            clocks.hf_prescaler < u32::MAX,
        ensures
            divider == spec_clock_divider(spec_prescaled(HFRCO_STARTUP_FREQUENCY, clocks.hf_prescaler)),
    {
        let frequency = clocks.get_frequency_hfclk().0;
        ((256 * frequency as u64) / ((OVERSAMPLE * BAUD_RATE) - 256) as u64) as u32
    }
}

} // verus!
