//! A QSPI peripheral for tests: it records the commands it is handed and
//! answers reads from a queue.
use crate::hal::qspi::CommandView;
use crate::hal::qspi::Data;
use crate::hal::qspi::DataView;
use crate::hal::qspi::Exchange;
use crate::hal::qspi::Indirect;
use crate::hal::qspi::Mode;
use crate::hal::qspi::Outcome;
use crate::hal::qspi::QSPICommand;
use crate::hal::qspi::answered_from;
use crate::hal::qspi::filled;
use crate::hal::qspi::left_after;
use std::collections::VecDeque;
use vstd::prelude::*;

verus! {

/// What a `MockQspi` notes of a command.
#[derive(Clone, Debug)]
pub struct CommandRecord {
    pub instruction: Option<u8>,
    pub address: Option<u32>,
    /// The bytes to write, or what the read buffer held before the read.
    pub data: Option<Vec<u8>>,
    /// Number of bytes that a read asked for; zero for other commands.
    pub length_requested: usize,
    pub dummy_cycles: u8,
}

impl CommandRecord {
    /// Whether the command came with data, and the data were exactly `data`.
    pub fn contains(&self, data: &[u8]) -> (same: bool)
        ensures
            same == (self.data matches Some(stored) && stored@ == data@),
    {
        match &self.data {
            Some(stored) => {
                if data.len() != stored.len() {
                    return false;
                }
                let mut i: usize = 0;
                while i < stored.len()
                    invariant
                        self.data == Some(*stored),
                        i <= stored@.len(),
                        stored@.len() == data@.len(),
                        forall|j: int| 0 <= j < i ==> stored@[j] == data@[j],
                    decreases stored@.len() - i,
                {
                    if stored[i] != data[i] {
                        assert(stored@[i as int] != data@[i as int]);
                        return false;
                    }
                    i += 1;
                }
                assert(stored@ =~= data@);
                true
            },
            None => false,
        }
    }

    /// Whether the record notes the command `sent`.
    pub open spec fn notes(&self, sent: CommandView) -> bool {
        &&& self.instruction == sent.instruction
        &&& self.address == sent.address
        &&& self.dummy_cycles == sent.dummy_cycles
        &&& match sent.data {
            DataView::WriteNone => self.data is None && self.length_requested == 0,
            DataView::Write(bytes) => self.data matches Some(stored) && stored@ == bytes
                && self.length_requested == 0,
            DataView::Read(buffer) => self.data matches Some(stored) && stored@ == buffer
                && self.length_requested == buffer.len(),
        }
    }
}

/// A QSPI peripheral that is never busy and never fails. It notes each
/// command in `command_records`. A read takes the next answer from
/// `to_read` and copies it over the start of the read buffer; with no answer
/// left, the buffer stays as it was.
pub struct MockQspi {
    pub mode: Mode,
    pub command_records: Vec<CommandRecord>,
    pub to_read: VecDeque<Vec<u8>>,
    /// The commands handed over since the last `clear`, with their answers.
    pub exchanges: Ghost<Seq<Exchange>>,
}

/// `buffer` with `answer` copied over its start, as far as both reach.
pub open spec fn overlaid(buffer: Seq<u8>, answer: Seq<u8>) -> Seq<u8> {
    Seq::new(
        buffer.len(),
        |i: int|
            if i < answer.len() {
                answer[i]
            } else {
                buffer[i]
            },
    )
}

/// The answers of a queue as sequences of bytes.
pub open spec fn views(to_read: Seq<Vec<u8>>) -> Seq<Seq<u8>> {
    Seq::new(to_read.len(), |i: int| to_read[i]@)
}

/// What a `MockQspi` with the answers `to_read` leaves in the data of a
/// command.
pub open spec fn answered(data: DataView, to_read: Seq<Vec<u8>>) -> DataView {
    match data {
        DataView::Read(buffer) => if to_read.len() > 0 {
            DataView::Read(overlaid(buffer, to_read[0]@))
        } else {
            data
        },
        _ => data,
    }
}

impl Default for MockQspi {
    fn default() -> (qspi: MockQspi)
        ensures
            qspi.inv(),
            qspi.command_records@.len() == 0,
            qspi.to_read@.len() == 0,
            qspi.log().len() == 0,
    {
        MockQspi {
            mode: Mode::Single,
            command_records: Vec::new(),
            to_read: VecDeque::new(),
            exchanges: Ghost(Seq::empty()),
        }
    }
}

impl MockQspi {
    /// Forgets the commands noted so far and the answers not yet given.
    pub fn clear(&mut self)
        ensures
            final(self).inv(),
            final(self).command_records@.len() == 0,
            final(self).to_read@.len() == 0,
            final(self).log().len() == 0,
            final(self).mode == old(self).mode,
    {
        self.command_records.clear();
        self.to_read.clear();
        self.exchanges = Ghost(Seq::empty());
    }
}

impl Indirect for MockQspi {
    type Error = ();

    /// The records are those of the logged commands, in order, and every
    /// logged command was carried out.
    open spec fn inv(&self) -> bool {
        &&& self.command_records@.len() == self.log().len()
        &&& forall|i: int|
            0 <= i < self.log().len() ==> (#[trigger] self.command_records@[i]).notes(
                self.log()[i].sent,
            )
        &&& forall|i: int| 0 <= i < self.log().len() ==> (#[trigger] self.log()[i]).outcome is Done
    }

    open spec fn log(&self) -> Seq<Exchange> {
        self.exchanges@
    }

    open spec fn patience(&self) -> nat {
        self.to_read@.len()
    }

    open spec fn replies(&self) -> Option<Seq<Seq<u8>>> {
        Some(views(self.to_read@))
    }

    fn execute_command(&mut self, command: &mut QSPICommand) -> (result: Result<
        (),
        nb::Error<()>,
    >)
        ensures
            result is Ok,
            final(command)@.data == answered(old(command)@.data, old(self).to_read@),
            final(self).mode == old(self).mode,
            final(self).command_records@.len() == old(self).command_records@.len() + 1,
            final(self).command_records@.last().notes(old(command)@),
            forall|i: int|
                0 <= i < old(self).command_records@.len() ==> final(self).command_records@[i]
                    == old(self).command_records@[i],
            final(self).to_read@ == if old(command)@.data is Read && old(self).to_read@.len() > 0 {
                old(self).to_read@.skip(1)
            } else {
                old(self).to_read@
            },
    {
        let ghost sent = command@;
        let (length_requested, data) = match command.data_ref() {
            Data::WriteNone => (0, None),
            Data::Write(bytes) => (0, Some(bytes.clone())),
            Data::Read(buffer) => (buffer.len(), Some(buffer.clone())),
        };
        self.command_records.push(
            CommandRecord {
                instruction: command.instruction(),
                address: command.address(),
                data,
                length_requested,
                dummy_cycles: command.dummy_cycles(),
            },
        );
        assert(self.command_records@.last().notes(sent));
        match command.data_mut() {
            Data::Read(buffer) => {
                match self.to_read.pop_front() {
                    Some(answer) => {
                        let ghost before = buffer@;
                        let mut i: usize = 0;
                        while i < buffer.len() && i < answer.len()
                            invariant
                                buffer@.len() == before.len(),
                                i <= buffer@.len(),
                                i <= answer@.len(),
                                forall|j: int|
                                    0 <= j < buffer@.len() ==> buffer@[j] == if j < i {
                                        answer@[j]
                                    } else {
                                        before[j]
                                    },
                            decreases buffer@.len() - i,
                        {
                            buffer[i] = answer[i];
                            i += 1;
                        }
                        assert(buffer@ =~= overlaid(before, answer@));
                        assert(old(self).to_read@.skip(1) =~= self.to_read@);
                    },
                    None => {},
                }
            },
            _ => {},
        }
        proof {
            self.exchanges@ = self.exchanges@.push(
                Exchange { sent, returned: command@.data, outcome: Outcome::Done },
            );
            let queue = views(old(self).to_read@);
            if sent.data is Read && queue.len() > 0 {
                assert(views(self.to_read@) =~= queue.skip(1));
                assert(overlaid(sent.data->Read_0, old(self).to_read@[0]@) =~= filled(
                    sent.data->Read_0,
                    queue[0],
                ));
            }
        }
        Ok(())
    }
}

} // verus!
