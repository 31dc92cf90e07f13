//! Driver for the IS25LP128F, a flash chip behind a SPI bus. So far the
//! driver knows the chip by name and size only.
use crate::hal::spi::FullDuplex;
use crate::utilities::memory;
use vstd::prelude::*;
use vstd::std_specs::convert::IntoSpecImpl;
use vstd::std_specs::ops::AddSpecImpl;
use vstd::std_specs::ops::SubSpecImpl;

verus! {

/// The chip, with the bus that it is reached over.
pub struct Is25Lp128F<SPI: FullDuplex<u8>> {
    _spi: SPI,
}

/// Address into the memory of the chip.
#[derive(Default, Copy, Clone, Debug, PartialOrd, PartialEq, Eq, Ord, Structural)]
pub struct Address(pub u32);

impl core::ops::Add<usize> for Address {
    type Output = Address;

    /// The address `rhs` bytes further on.
    fn add(self, rhs: usize) -> (sum: Address) {
        Address(self.0 + rhs as u32)
    }
}

impl AddSpecImpl<usize> for Address {
    open spec fn obeys_add_spec() -> bool {
        true
    }

    open spec fn add_req(self, rhs: usize) -> bool {
        self.0 + rhs <= u32::MAX
    }

    open spec fn add_spec(self, rhs: usize) -> Address {
        Address((self.0 + rhs) as u32)
    }
}

impl core::ops::Sub<usize> for Address {
    type Output = Address;

    /// The address `rhs` bytes back, or the first address where there are
    /// not that many before this one.
    fn sub(self, rhs: usize) -> (difference: Address) {
        if rhs >= self.0 as usize {
            Address(0)
        } else {
            Address(self.0 - rhs as u32)
        }
    }
}

impl SubSpecImpl<usize> for Address {
    open spec fn obeys_sub_spec() -> bool {
        true
    }

    open spec fn sub_req(self, rhs: usize) -> bool {
        true
    }

    open spec fn sub_spec(self, rhs: usize) -> Address {
        if rhs >= self.0 {
            Address(0)
        } else {
            Address((self.0 - rhs) as u32)
        }
    }
}

impl core::ops::Sub<Address> for Address {
    type Output = usize;

    /// The number of bytes from `rhs` up to this address, or zero where
    /// `rhs` lies behind it.
    fn sub(self, rhs: Address) -> (distance: usize) {
        if rhs.0 >= self.0 {
            0
        } else {
            (self.0 - rhs.0) as usize
        }
    }
}

impl SubSpecImpl<Address> for Address {
    open spec fn obeys_sub_spec() -> bool {
        true
    }

    open spec fn sub_req(self, rhs: Address) -> bool {
        true
    }

    open spec fn sub_spec(self, rhs: Address) -> usize {
        if rhs.0 >= self.0 {
            0
        } else {
            (self.0 - rhs.0) as usize
        }
    }
}

impl Into<usize> for Address {
    fn into(self) -> (value: usize) {
        self.0 as usize
    }
}

impl IntoSpecImpl<usize> for Address {
    open spec fn obeys_into_spec() -> bool {
        true
    }

    open spec fn into_spec(self) -> usize {
        self.0 as usize
    }
}

impl memory::Address for Address {
    open spec fn spec_offset(self) -> nat {
        self.0 as nat
    }

    fn offset(self) -> (offset: u32) {
        self.0
    }

    fn forward(self, distance: usize) -> (address: Address) {
        Address(self.0 + distance as u32)
    }
}

impl<SPI: FullDuplex<u8>> Is25Lp128F<SPI> {
    /// A driver for the chip behind the bus `spi`. The driver keeps the
    /// bus; it sends nothing over it yet.
    pub fn new(spi: SPI) -> (flash: Self)
        ensures
            flash.bus() == spi,
    {
        Is25Lp128F { _spi: spi }
    }

    /// An identifying name for the flash chip.
    pub fn label() -> (label: &'static str)
        ensures
            label == "is25lp128f",
    {
        "is25lp128f"
    }

    /// The first and the last address of the chip.
    pub fn range(&self) -> (range: (Address, Address))
        ensures
            range == (Address(0x0000_0000), Address(0x00FF_FFFF)),
    {
        (Address(0x0000_0000), Address(0x00FF_FFFF))
    }

    /// The bus that the driver reaches the chip over.
    pub closed spec fn bus(&self) -> SPI {
        self._spi
    }
}

} // verus!
