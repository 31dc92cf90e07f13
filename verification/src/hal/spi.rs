//! Interface to a SPI peripheral.
use vstd::prelude::*;

verus! {

/// Full duplex communication with a word of type `WORD` as the unit that is
/// exchanged.
pub trait FullDuplex<WORD> {
    type Error;

    /// Transmits a word, or an empty message where there is none to send,
    /// to receive a word in exchange.
    fn transmit(&mut self, word: Option<WORD>) -> Result<(), nb::Error<Self::Error>>;

    /// Receives a word. To be called after `transmit`.
    fn receive(&mut self) -> Result<WORD, nb::Error<Self::Error>>;
}

} // verus!
