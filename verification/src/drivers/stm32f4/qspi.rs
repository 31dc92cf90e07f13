//! Quadspi driver for the stm32f412: its configuration, and how a command
//! is laid out in the registers of the peripheral.
use crate::hal::qspi::CommandView;
use crate::hal::qspi::Data;
use crate::hal::qspi::DataView;
use crate::hal::qspi::QSPICommand;
use core::marker::PhantomData;
use vstd::prelude::*;

verus! {

/// A pin that can carry the clock of the peripheral.
pub trait ClkPin {

}

/// A pin that can select the chip of bank 1.
pub trait Bk1CsPin {

}

/// A pin that can select the chip of bank 2.
pub trait Bk2CsPin {

}

pub trait Bk1Io0Pin {

}

pub trait Bk1Io1Pin {

}

pub trait Bk1Io2Pin {

}

pub trait Bk1Io3Pin {

}

pub trait Bk2Io0Pin {

}

pub trait Bk2Io1Pin {

}

pub trait Bk2Io2Pin {

}

pub trait Bk2Io3Pin {

}

/// The most dummy cycles that the peripheral can insert.
pub const MAX_DUMMY_CYCLES: u8 = 31;

/// Mode typestate: one data line.
pub struct Single;

/// Mode typestate: two data lines.
pub struct Dual;

/// Mode typestate: four data lines.
pub struct Quad;

/// Whether bits are clocked on both edges.
#[derive(PartialEq, Eq, Debug, Structural)]
pub enum DataRate {
    Single,
    /// Not supported by the driver.
    Double,
}

/// Number of flash memories sharing a bus.
#[derive(PartialEq, Eq, Debug, Structural)]
pub enum FlashMode {
    Single,
    /// Not supported by the driver.
    Double,
}

/// Why a configuration was turned down.
#[derive(Copy, Clone, Debug, PartialEq, Eq, Structural)]
pub enum ConfigError {
    NotYetImplemented,
    InvalidFlashSize,
}

/// What can go wrong with a command.
#[derive(Copy, Clone, Debug, PartialEq, Eq, Structural)]
pub enum QspiError {
    DummyCyclesValueOutOfRange,
}

/// QuadSPI configuration. The number of address bits is 8, 16, 24 or 32.
pub struct Config<MODE> {
    data_rate: DataRate,
    flash_mode: FlashMode,
    flash_size_bits: u8,
    _marker: PhantomData<MODE>,
}

/// Whether the peripheral can address a flash with addresses of `bits`
/// bits.
pub open spec fn is_flash_size(bits: u8) -> bool {
    bits == 8 || bits == 16 || bits == 24 || bits == 32
}

impl<MODE> Config<MODE> {
    pub closed spec fn spec_data_rate(&self) -> DataRate {
        self.data_rate
    }

    pub closed spec fn spec_flash_mode(&self) -> FlashMode {
        self.flash_mode
    }

    pub closed spec fn spec_flash_size_bits(&self) -> u8 {
        self.flash_size_bits
    }

    #[verifier::type_invariant]
    spec fn has_flash_size(self) -> bool {
        is_flash_size(self.flash_size_bits)
    }

    /// The configuration for one flash, single data rate and addresses of
    /// 24 bits.
    pub fn new() -> (config: Config<MODE>)
        ensures
            config.spec_data_rate() == DataRate::Single,
            config.spec_flash_mode() == FlashMode::Single,
            config.spec_flash_size_bits() == 24,
    {
        Config {
            data_rate: DataRate::Single,
            flash_mode: FlashMode::Single,
            flash_size_bits: 24,
            _marker: PhantomData,
        }
    }

    /// The same configuration, for one data line.
    pub fn single(self) -> (config: Config<Single>)
        ensures
            config.spec_data_rate() == self.spec_data_rate(),
            config.spec_flash_mode() == self.spec_flash_mode(),
            config.spec_flash_size_bits() == self.spec_flash_size_bits(),
    {
        proof {
            use_type_invariant(&self);
        }
        Config {
            data_rate: self.data_rate,
            flash_mode: self.flash_mode,
            flash_size_bits: self.flash_size_bits,
            _marker: PhantomData,
        }
    }

    /// The same configuration, for two data lines.
    pub fn double(self) -> (config: Config<Dual>)
        ensures
            config.spec_data_rate() == self.spec_data_rate(),
            config.spec_flash_mode() == self.spec_flash_mode(),
            config.spec_flash_size_bits() == self.spec_flash_size_bits(),
    {
        proof {
            use_type_invariant(&self);
        }
        Config {
            data_rate: self.data_rate,
            flash_mode: self.flash_mode,
            flash_size_bits: self.flash_size_bits,
            _marker: PhantomData,
        }
    }

    /// The same configuration, for four data lines.
    pub fn quad(self) -> (config: Config<Quad>)
        ensures
            config.spec_data_rate() == self.spec_data_rate(),
            config.spec_flash_mode() == self.spec_flash_mode(),
            config.spec_flash_size_bits() == self.spec_flash_size_bits(),
    {
        proof {
            use_type_invariant(&self);
        }
        Config {
            data_rate: self.data_rate,
            flash_mode: self.flash_mode,
            flash_size_bits: self.flash_size_bits,
            _marker: PhantomData,
        }
    }

    pub fn with_data_rate(self, data_rate: DataRate) -> (config: Config<MODE>)
        ensures
            config.spec_data_rate() == data_rate,
            config.spec_flash_mode() == self.spec_flash_mode(),
            config.spec_flash_size_bits() == self.spec_flash_size_bits(),
    {
        proof {
            use_type_invariant(&self);
        }
        Config {
            data_rate,
            flash_mode: self.flash_mode,
            flash_size_bits: self.flash_size_bits,
            _marker: PhantomData,
        }
    }

    pub fn with_flash_mode(self, flash_mode: FlashMode) -> (config: Config<MODE>)
        ensures
            config.spec_data_rate() == self.spec_data_rate(),
            config.spec_flash_mode() == flash_mode,
            config.spec_flash_size_bits() == self.spec_flash_size_bits(),
    {
        proof {
            use_type_invariant(&self);
        }
        Config {
            data_rate: self.data_rate,
            flash_mode,
            flash_size_bits: self.flash_size_bits,
            _marker: PhantomData,
        }
    }

    /// The same configuration for a flash with addresses of `bits` bits,
    /// which have to be 8, 16, 24 or 32.
    pub fn with_flash_size(self, bits: u8) -> (result: Result<Config<MODE>, ConfigError>)
        ensures
            result is Ok == is_flash_size(bits),
            match result {
                Ok(config) => {
                    &&& config.spec_data_rate() == self.spec_data_rate()
                    &&& config.spec_flash_mode() == self.spec_flash_mode()
                    &&& config.spec_flash_size_bits() == bits
                },
                Err(error) => error == ConfigError::InvalidFlashSize,
            },
    {
        if bits == 8 || bits == 16 || bits == 24 || bits == 32 {
            Ok(
                Config {
                    data_rate: self.data_rate,
                    flash_mode: self.flash_mode,
                    flash_size_bits: bits,
                    _marker: PhantomData,
                },
            )
        } else {
            Err(ConfigError::InvalidFlashSize)
        }
    }
}

/// Marker trait for a tuple of pins that work for a QSPI in single mode.
pub trait SingleModePins {

}

impl<CLK, CS, IO0, IO1, IO2, IO3> SingleModePins for (CLK, CS, IO0, IO1, IO2, IO3) where
    CLK: ClkPin,
    CS: Bk1CsPin,
    IO0: Bk1Io0Pin,
    IO1: Bk1Io1Pin,
    IO2: Bk1Io2Pin,
    IO3: Bk1Io3Pin,
 {

}

/// An instruction byte.
pub struct Instruction(pub u8);

/// What the driver writes to the peripheral when it takes it over.
#[derive(Clone, Copy, Debug, PartialEq, Eq, Structural)]
pub struct Setup {
    /// Divider of the bus clock, less one.
    pub prescaler: u8,
    /// Fill level of the buffer at which the peripheral reports room.
    pub fifo_threshold: u8,
    /// Number of address bits of the flash, less one.
    pub flash_size: u8,
    /// Cycles that chip select stays high between commands, less one.
    pub chip_select_high_time: u8,
}

/// How a command is laid out in the registers of the peripheral.
#[derive(Clone, Copy, Debug, PartialEq, Eq, Structural)]
pub struct Frame {
    /// Number of bytes of the data phase, less one.
    pub data_length: u32,
    /// Lines of the data phase: none without data.
    pub data_mode: u8,
    /// Indirect write, or indirect read.
    pub functional_mode: u8,
    pub dummy_cycles: u8,
    /// Address bytes, less one.
    pub address_size: u8,
    /// Lines of the address phase.
    pub address_mode: u8,
    /// Lines of the instruction phase: none without instruction.
    pub instruction_mode: u8,
    pub instruction: u8,
    pub address: Option<u32>,
}

pub const INDIRECT_WRITE_MODE: u8 = 0b00;

pub const INDIRECT_READ_MODE: u8 = 0b01;

pub const PROTOCOL_SINGLE_MODE: u8 = 0b01;

/// The length that the peripheral is told for a data phase of `len`
/// bytes: one less, and zero for none.
pub open spec fn length_field(len: nat) -> u32 {
    if len == 0 {
        0
    } else {
        (len - 1) as u32
    }
}

/// The register layout of a command for a flash with addresses of `bits`
/// bits, on one data line.
pub open spec fn frame_of(command: CommandView, bits: u8) -> Frame {
    Frame {
        data_length: match command.data {
            DataView::WriteNone => 0,
            DataView::Read(buffer) => length_field(buffer.len()),
            DataView::Write(bytes) => length_field(bytes.len()),
        },
        data_mode: match command.data {
            DataView::WriteNone => 0,
            _ => PROTOCOL_SINGLE_MODE,
        },
        functional_mode: match command.data {
            DataView::Read(_) => INDIRECT_READ_MODE,
            _ => INDIRECT_WRITE_MODE,
        },
        dummy_cycles: command.dummy_cycles,
        address_size: ((bits / 8) - 1) as u8,
        address_mode: PROTOCOL_SINGLE_MODE,
        instruction_mode: if command.instruction is Some {
            PROTOCOL_SINGLE_MODE
        } else {
            0
        },
        instruction: match command.instruction {
            Some(instruction) => instruction,
            None => 0,
        },
        address: command.address,
    }
}

/// QuadSPI abstraction.
pub struct QuadSpi<PINS, MODE> {
    config: Config<MODE>,
    _marker: PhantomData<PINS>,
}

impl<PINS: SingleModePins> QuadSpi<PINS, Single> {
    /// Number of address bits of the flash that the driver was configured
    /// for.
    pub closed spec fn spec_flash_size_bits(&self) -> u8 {
        self.config.spec_flash_size_bits()
    }

    /// A driver with the given pins and configuration. Double data rate
    /// and two flashes on one bus are turned down.
    pub fn from_config(_pins: PINS, config: Config<Single>) -> (result: Result<Self, ConfigError>)
        ensures
            result is Ok == (config.spec_data_rate() == DataRate::Single
                && config.spec_flash_mode() == FlashMode::Single),
            match result {
                Ok(driver) => driver.spec_flash_size_bits() == config.spec_flash_size_bits(),
                Err(error) => error == ConfigError::NotYetImplemented,
            },
    {
        let single_rate = match config.data_rate {
            DataRate::Single => true,
            DataRate::Double => false,
        };
        let single_flash = match config.flash_mode {
            FlashMode::Single => true,
            FlashMode::Double => false,
        };
        if !single_rate || !single_flash {
            return Err(ConfigError::NotYetImplemented);
        }
        Ok(QuadSpi { config, _marker: PhantomData })
    }

    /// What to write to the peripheral before the first command: the
    /// slowest clock, a threshold of one byte, the size of the flash and the
    /// longest chip select high time.
    pub fn setup(&self) -> (setup: Setup)
        ensures
            is_flash_size(self.spec_flash_size_bits()),
            setup == (Setup {
                prescaler: 255,
                fifo_threshold: 1,
                flash_size: (self.spec_flash_size_bits() - 1) as u8,
                chip_select_high_time: 7,
            }),
    {
        proof {
            use_type_invariant(&self.config);
        }
        Setup {
            prescaler: 255,
            fifo_threshold: 1,
            flash_size: self.config.flash_size_bits - 1,
            chip_select_high_time: 7,
        }
    }

    /// Lays `command` out for the registers of the peripheral. A command
    /// with more dummy cycles than the peripheral can insert is turned down,
    /// whatever the peripheral does; a busy peripheral takes no command.
    pub fn plan(&self, command: &QSPICommand, busy: bool) -> (result: Result<
        Frame,
        nb::Error<QspiError>,
    >)
        ensures
            is_flash_size(self.spec_flash_size_bits()),
            match result {
                Ok(frame) => {
                    &&& command@.dummy_cycles <= MAX_DUMMY_CYCLES
                    &&& !busy
                    &&& frame == frame_of(command@, self.spec_flash_size_bits())
                },
                Err(nb::Error::Other(error)) => {
                    &&& command@.dummy_cycles > MAX_DUMMY_CYCLES
                    &&& error == QspiError::DummyCyclesValueOutOfRange
                },
                Err(nb::Error::WouldBlock) => command@.dummy_cycles <= MAX_DUMMY_CYCLES && busy,
            },
    {
        proof {
            use_type_invariant(&self.config);
        }
        if command.dummy_cycles() > MAX_DUMMY_CYCLES {
            return Err(nb::Error::Other(QspiError::DummyCyclesValueOutOfRange));
        }
        if busy {
            return Err(nb::Error::WouldBlock);
        }
        let bits = self.config.flash_size_bits;
        let address_size: u8 = if bits == 8 {
            0b00
        } else if bits == 16 {
            0b01
        } else if bits == 24 {
            0b10
        } else {
            0b11
        };
        let (data_length, data_mode, functional_mode) = match command.data_ref() {
            Data::WriteNone => (0u32, 0u8, INDIRECT_WRITE_MODE),
            Data::Read(buffer) => (
                Self::length(buffer.len()),
                PROTOCOL_SINGLE_MODE,
                INDIRECT_READ_MODE,
            ),
            Data::Write(bytes) => (
                Self::length(bytes.len()),
                PROTOCOL_SINGLE_MODE,
                INDIRECT_WRITE_MODE,
            ),
        };
        let (instruction_mode, instruction) = match command.instruction() {
            Some(instruction) => (PROTOCOL_SINGLE_MODE, instruction),
            None => (0x00, 0x00),
        };
        Ok(
            Frame {
                data_length,
                data_mode,
                functional_mode,
                dummy_cycles: command.dummy_cycles(),
                address_size,
                address_mode: PROTOCOL_SINGLE_MODE,
                instruction_mode,
                instruction,
                address: command.address(),
            },
        )
    }

    /// The length field for a data phase of `len` bytes.
    pub fn length(len: usize) -> (field: u32)
        ensures
            field == length_field(len as nat),
    {
        if len == 0 {
            0
        } else {
            #[verifier::truncate]
            ((len - 1) as u32)
        }
    }
}

} // verus!
