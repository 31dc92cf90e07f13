//! Commands for a serial flash chip behind a QSPI peripheral, and the
//! interface of a peripheral that carries them out.
use crate::utilities::bitwise::bit_is_set;
use vstd::prelude::*;

verus! {

/// The instruction that reads the status register of a serial flash chip.
pub const READ_STATUS_INSTRUCTION: u8 = 0x05;

/// The instruction with which the memory of a flash chip is read.
pub const READ_INSTRUCTION: u8 = 0x03;

/// Number of lines that carry data.
#[derive(Clone, Copy, Debug, PartialEq, Eq, Structural)]
pub enum Mode {
    Single,
    Dual,
    Quad,
}

impl Default for Mode {
    fn default() -> (mode: Mode)
        ensures
            mode == Mode::Single,
    {
        Mode::Single
    }
}

/// Data phase of a QSPI operation.
pub enum Data {
    /// No data phase.
    WriteNone,
    /// Bytes are read from the chip into this buffer.
    Read(Vec<u8>),
    /// These bytes are written to the chip.
    Write(Vec<u8>),
}

/// What a `Data` holds.
pub enum DataView {
    WriteNone,
    Read(Seq<u8>),
    Write(Seq<u8>),
}

impl View for Data {
    type V = DataView;

    open spec fn view(&self) -> DataView {
        match self {
            Data::WriteNone => DataView::WriteNone,
            Data::Read(buffer) => DataView::Read(buffer@),
            Data::Write(bytes) => DataView::Write(bytes@),
        }
    }
}

/// Builder for QSPI operations.
pub struct QSPICommand {
    instruction: Option<u8>,
    address: Option<u32>,
    data: Data,
    dummy_cycles: u8,
}

/// What a `QSPICommand` holds.
pub struct CommandView {
    pub instruction: Option<u8>,
    pub address: Option<u32>,
    pub data: DataView,
    pub dummy_cycles: u8,
}

impl View for QSPICommand {
    type V = CommandView;

    closed spec fn view(&self) -> CommandView {
        CommandView {
            instruction: self.instruction,
            address: self.address,
            data: self.data@,
            dummy_cycles: self.dummy_cycles,
        }
    }
}

impl Default for QSPICommand {
    /// A command with no instruction, no address, no data and no dummy
    /// cycles.
    fn default() -> (command: QSPICommand)
        ensures
            command@ == (CommandView {
                instruction: None,
                address: None,
                data: DataView::WriteNone,
                dummy_cycles: 0,
            }),
    {
        QSPICommand { instruction: None, address: None, data: Data::WriteNone, dummy_cycles: 0 }
    }
}

impl QSPICommand {
    pub fn with_instruction(self, instruction: u8) -> (command: QSPICommand)
        ensures
            command@ == (CommandView { instruction: Some(instruction), ..self@ }),
    {
        QSPICommand { instruction: Some(instruction), ..self }
    }

    pub fn with_address(self, address: u32) -> (command: QSPICommand)
        ensures
            command@ == (CommandView { address: Some(address), ..self@ }),
    {
        QSPICommand { address: Some(address), ..self }
    }

    pub fn with_data(self, data: Data) -> (command: QSPICommand)
        ensures
            command@ == (CommandView { data: data@, ..self@ }),
    {
        QSPICommand { data, ..self }
    }

    /// Makes the command read as many bytes as `data` holds, into `data`.
    pub fn with_read_data(self, data: Vec<u8>) -> (command: QSPICommand)
        ensures
            command@ == (CommandView { data: DataView::Read(data@), ..self@ }),
    {
        QSPICommand { data: Data::Read(data), ..self }
    }

    /// Makes the command write the bytes of `data`.
    pub fn with_write_data(self, data: Vec<u8>) -> (command: QSPICommand)
        ensures
            command@ == (CommandView { data: DataView::Write(data@), ..self@ }),
    {
        QSPICommand { data: Data::Write(data), ..self }
    }

    pub fn with_dummy_cycles(self, dummy_cycles: u8) -> (command: QSPICommand)
        ensures
            command@ == (CommandView { dummy_cycles, ..self@ }),
    {
        QSPICommand { dummy_cycles, ..self }
    }

    pub fn instruction(&self) -> (instruction: Option<u8>)
        ensures
            instruction == self@.instruction,
    {
        self.instruction
    }

    pub fn address(&self) -> (address: Option<u32>)
        ensures
            address == self@.address,
    {
        self.address
    }

    pub fn data_ref(&self) -> (data: &Data)
        ensures
            data@ == self@.data,
    {
        &self.data
    }

    /// Access to the data of the command, to fill a read buffer. The rest
    /// of the command stays as it is.
    pub fn data_mut(&mut self) -> (data: &mut Data)
        ensures
            data@ == old(self)@.data,
            final(self)@ == (CommandView { data: final(data)@, ..old(self)@ }),
    {
        &mut self.data
    }

    pub fn data(self) -> (data: Data)
        ensures
            data@ == self@.data,
    {
        self.data
    }

    pub fn dummy_cycles(&self) -> (dummy_cycles: u8)
        ensures
            dummy_cycles == self@.dummy_cycles,
    {
        self.dummy_cycles
    }
}

/// How an attempt to carry out a command ended.
pub enum Outcome {
    /// The command was carried out.
    Done,
    /// The peripheral reported an error.
    Failed,
}

/// A command that a peripheral has carried out or failed to carry out: what
/// it was handed, and what its data held afterwards.
pub struct Exchange {
    pub sent: CommandView,
    pub returned: DataView,
    pub outcome: Outcome,
}

/// Whether a command keeps its shape from `before` to `after`: all but the
/// contents of a read buffer stays as it was.
pub open spec fn same_shape(before: CommandView, after: CommandView) -> bool {
    &&& after.instruction == before.instruction
    &&& after.address == before.address
    &&& after.dummy_cycles == before.dummy_cycles
    &&& match before.data {
        DataView::WriteNone => after.data == before.data,
        DataView::Write(_) => after.data == before.data,
        DataView::Read(buffer) => after.data matches DataView::Read(filled) && filled.len()
            == buffer.len(),
    }
}

/// Whether a command read the status register into a buffer whose first
/// byte had bit 0 clear and found the bit set: the chip reported an
/// operation in progress.
pub open spec fn found_busy(before: CommandView, after: CommandView) -> bool {
    &&& before.instruction == Some(READ_STATUS_INSTRUCTION)
    &&& before.data matches DataView::Read(buffer)
    &&& after.data matches DataView::Read(filled)
    &&& buffer.len() > 0
    &&& filled.len() > 0
    &&& !bit_is_set(buffer[0], 0)
    &&& bit_is_set(filled[0], 0)
}

/// `buffer` with `answer` over its start, as far as both reach.
pub open spec fn filled(buffer: Seq<u8>, answer: Seq<u8>) -> Seq<u8> {
    Seq::new(
        buffer.len(),
        |i: int|
            if i < answer.len() {
                answer[i]
            } else {
                buffer[i]
            },
    )
}

/// What a peripheral that answers reads from the queue `replies` leaves in
/// the data of a command: a read buffer is filled with the first answer,
/// other data stay as they are.
pub open spec fn answered_from(data: DataView, replies: Seq<Seq<u8>>) -> DataView {
    match data {
        DataView::Read(buffer) => if replies.len() > 0 {
            DataView::Read(filled(buffer, replies[0]))
        } else {
            data
        },
        _ => data,
    }
}

/// The answers that are left of the queue `replies` after a command with
/// the data `data`: a read takes the first.
pub open spec fn left_after(data: DataView, replies: Seq<Seq<u8>>) -> Seq<Seq<u8>> {
    if data is Read && replies.len() > 0 {
        replies.skip(1)
    } else {
        replies
    }
}

/// Whether `returned` is what a read of the memory `command` brings back
/// from a chip whose memory holds `memory`: the bytes that the memory holds
/// from the address of the command on. Of other commands, of reads that go
/// past the end of the memory, and of a memory of which nothing is said, it
/// says nothing.
pub open spec fn brought(memory: Option<Seq<u8>>, command: CommandView, returned: DataView) -> bool {
    match (memory, command.address, command.data) {
        (Some(held), Some(address), DataView::Read(buffer)) => command.instruction == Some(
            READ_INSTRUCTION,
        ) && address + buffer.len() <= held.len() ==> returned == DataView::Read(
            held.subrange(address as int, address + buffer.len()),
        ),
        _ => true,
    }
}

/// A QSPI peripheral in indirect mode: all communication with the chip goes
/// through commands handed to the peripheral.
///
/// The drivers are proved against the contract of `execute_command`. An
/// implementation for a real peripheral promises to keep it. It says what
/// has to hold of itself between calls (`inv`); it need not say what `log`,
/// `patience`, `memory` and `replies` are.
pub trait Indirect {
    type Error;

    /// What an implementation needs to hold of itself between calls. Every
    /// implementation says so itself.
    spec fn inv(&self) -> bool;

    /// The commands that the peripheral was handed and did not turn away,
    /// oldest first.
    open spec fn log(&self) -> Seq<Exchange> {
        Seq::empty()
    }

    /// A bound on waiting: how many more times the peripheral may turn a
    /// command away, or a chip behind it may report an operation that is
    /// still in progress, while no new operation is started. Reading the
    /// status register starts none.
    open spec fn patience(&self) -> nat {
        0
    }

    /// What the memory of the chip behind the peripheral holds, where an
    /// implementation says so. Such a peripheral carries every command out,
    /// and reads of the memory through it bring back what the memory holds.
    open spec fn memory(&self) -> Option<Seq<u8>> {
        None
    }

    /// The answers that the peripheral will give to the next reads, the
    /// next one first, where an implementation says so, as the peripheral of
    /// a test does. Such a peripheral carries every command out. A read takes
    /// the first answer, which comes over the start of the read buffer; with
    /// no answer left the buffer stays as it was.
    open spec fn replies(&self) -> Option<Seq<Seq<u8>>> {
        None
    }

    /// Carries out `command`. A peripheral that cannot take the command yet
    /// answers `WouldBlock` and leaves everything as it is. Otherwise the
    /// command is logged with what its data held afterwards, whether it
    /// succeeded or not.
    fn execute_command(&mut self, command: &mut QSPICommand) -> (result: Result<
        (),
        nb::Error<Self::Error>,
    >)
        requires
            old(self).inv(),
        ensures
            final(self).inv(),
            same_shape(old(command)@, final(command)@),
            match result {
                Err(nb::Error::WouldBlock) => {
                    &&& final(self).log() == old(self).log()
                    &&& final(self).memory() == old(self).memory()
                    &&& final(self).replies() == old(self).replies()
                    &&& final(command)@ == old(command)@
                    &&& final(self).patience() < old(self).patience()
                },
                Err(nb::Error::Other(_)) => final(self).log() == old(self).log().push(
                    Exchange {
                        sent: old(command)@,
                        returned: final(command)@.data,
                        outcome: Outcome::Failed,
                    },
                ),
                Ok(()) => final(self).log() == old(self).log().push(
                    Exchange {
                        sent: old(command)@,
                        returned: final(command)@.data,
                        outcome: Outcome::Done,
                    },
                ),
            },
            old(command)@.instruction == Some(READ_STATUS_INSTRUCTION) ==> final(self).patience()
                <= old(self).patience(),
            found_busy(old(command)@, final(command)@) ==> final(self).patience() < old(
                self,
            ).patience(),
            old(self).memory() is Some ==> !(result matches Err(nb::Error::Other(_))),
            old(command)@.instruction == Some(READ_STATUS_INSTRUCTION) || old(command)@.instruction
                == Some(READ_INSTRUCTION) ==> final(self).memory() == old(self).memory(),
            result is Ok ==> brought(old(self).memory(), old(command)@, final(command)@.data),
            old(self).replies() matches Some(queue) ==> {
                &&& result is Ok
                &&& final(command)@.data == answered_from(old(command)@.data, queue)
                &&& final(self).replies() == Some(left_after(old(command)@.data, queue))
            },
    ;
}

} // verus!
