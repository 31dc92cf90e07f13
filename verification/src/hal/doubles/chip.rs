//! A Micron N25Q128A for tests: a QSPI peripheral with a chip behind it
//! that keeps its memory in RAM.
use crate::drivers::micron::n25q128a_chip::Chip;
use crate::drivers::micron::n25q128a_chip::answered;
use crate::drivers::micron::n25q128a_chip::follows;
use crate::drivers::micron::n25q128a_chip::erase_commands;
use crate::drivers::micron::n25q128a_chip::history;
use crate::drivers::micron::n25q128a_chip::lemma_erase_erases;
use crate::drivers::micron::n25q128a_chip::lemma_history_continues;
use crate::drivers::micron::n25q128a_chip::lemma_transfers_write;
use crate::drivers::micron::n25q128a_chip::lemma_write_writes;
use crate::drivers::micron::n25q128a_flash::Command;
use crate::drivers::micron::n25q128a_flash::brought_back;
use crate::drivers::micron::n25q128a_flash::is_poll;
use crate::drivers::micron::n25q128a_flash::on_the_bus;
use crate::drivers::micron::n25q128a_flash::extends;
use crate::drivers::micron::n25q128a_flash::sectors_of_chip;
use crate::drivers::micron::n25q128a_flash::sent_all_of;
use crate::drivers::micron::n25q128a_flash::transfers_written;
use crate::drivers::micron::n25q128a_flash::write_commands;
use crate::hal::flash::overlaid;
use crate::utilities::memory;
use crate::drivers::micron::n25q128a_chip::operates;
use crate::drivers::micron::n25q128a_chip::status_byte;
use crate::drivers::micron::n25q128a_chip::obeyed;
use crate::drivers::micron::n25q128a_chip::programmed;
use crate::drivers::micron::n25q128a_flash::MANUFACTURER_ID;
use crate::drivers::micron::n25q128a_flash::MEMORY_SIZE;
use crate::drivers::micron::n25q128a_flash::PAGE_SIZE;
use crate::drivers::micron::n25q128a_flash::SECTOR_SIZE;
use crate::hal::flash::ERASED;
use crate::hal::flash::erased;
use crate::hal::flash::held_at;
use crate::hal::flash::lemma_read_after_write;
use crate::hal::qspi::Data;
use crate::hal::qspi::DataView;
use crate::hal::qspi::Exchange;
use crate::hal::qspi::Indirect;
use crate::hal::qspi::Outcome;
use crate::hal::qspi::QSPICommand;
use vstd::prelude::*;

verus! {

/// A chip that does with its memory what the commands it is sent ask for,
/// at once, and reports an operation in progress for `latency` reads of the
/// status register after each program or erase command. The peripheral in
/// front of it is never busy and never fails.
pub struct FakeChip {
    pub memory: Vec<u8>,
    /// The write enable latch.
    pub write_enabled: bool,
    /// Number of status reads that find the chip busy after an operation.
    pub latency: usize,
    /// Number of status reads that will still find the chip busy.
    pub busy_polls: usize,
    /// The instruction of each command that the chip was sent.
    pub instructions: Vec<u8>,
    /// The commands sent to the chip, with their answers.
    pub exchanges: Ghost<Seq<Exchange>>,
    /// The state of the chip before each of these exchanges, and last its
    /// state now.
    pub states: Ghost<Seq<Chip>>,
}

/// Whether exchange number `k` of `log` was carried out, and, where it was
/// a read of the status register, brought back the status byte of the chip
/// in state number `k` of `states`, busy or idle.
pub open spec fn reported(log: Seq<Exchange>, states: Seq<Chip>, k: int) -> bool {
    &&& log[k].outcome is Done
    &&& log[k].sent.instruction == Some(0x05u8) ==> log[k].returned == answered(
        states[k],
        true,
        log[k].sent,
    ) || log[k].returned == answered(states[k], false, log[k].sent)
}

/// An erased chip with the write enable latch down.
pub open spec fn blank() -> Chip {
    Chip { memory: Seq::new(MEMORY_SIZE as nat, |i: int| ERASED), write_enabled: false }
}

impl FakeChip {
    /// The state of the chip.
    pub open spec fn chip(&self) -> Chip {
        Chip { memory: self.memory@, write_enabled: self.write_enabled }
    }

    /// An erased chip.
    pub fn new(latency: usize) -> (chip: FakeChip)
        ensures
            chip.inv(),
            chip.latency == latency,
            chip.busy_polls == 0,
            !chip.write_enabled,
            chip.log().len() == 0,
            chip.chip() == blank(),
            forall|i: int| 0 <= i < MEMORY_SIZE ==> chip.memory@[i] == ERASED,
    {
        let mut memory: Vec<u8> = Vec::new();
        let mut i: usize = 0;
        while i < MEMORY_SIZE
            invariant
                i <= MEMORY_SIZE,
                memory@.len() == i,
                forall|j: int| 0 <= j < i ==> memory@[j] == ERASED,
            decreases MEMORY_SIZE - i,
        {
            memory.push(ERASED);
            i += 1;
        }
        assert(memory@ =~= blank().memory);
        FakeChip {
            memory,
            write_enabled: false,
            latency,
            busy_polls: 0,
            instructions: Vec::new(),
            exchanges: Ghost(Seq::empty()),
            states: Ghost(Seq::empty().push(blank())),
        }
    }

    /// Erases the bytes from `from` up to `to`.
    fn wipe(&mut self, from: usize, to: usize)
        requires
            from <= to <= old(self).memory@.len(),
        ensures
            final(self).memory@ == erased(old(self).memory@, from as int, to as int),
            final(self).write_enabled == old(self).write_enabled,
            final(self).latency == old(self).latency,
            final(self).busy_polls == old(self).busy_polls,
            final(self).instructions == old(self).instructions,
            final(self).exchanges == old(self).exchanges,
            final(self).states == old(self).states,
    {
        let ghost before = self.memory@;
        let mut i: usize = from;
        while i < to
            invariant
                from <= i <= to <= before.len(),
                self.memory@.len() == before.len(),
                self.write_enabled == old(self).write_enabled,
                self.latency == old(self).latency,
                self.busy_polls == old(self).busy_polls,
                self.instructions == old(self).instructions,
                self.exchanges == old(self).exchanges,
                self.states == old(self).states,
                forall|j: int|
                    0 <= j < before.len() ==> self.memory@[j] == if from <= j < i {
                        ERASED
                    } else {
                        before[j]
                    },
            decreases to - i,
        {
            self.memory[i] = ERASED;
            i += 1;
        }
        assert(self.memory@ =~= erased(before, from as int, to as int));
    }

    /// Copies what the memory holds from `address` on over the start of
    /// `buffer`, as far as the memory reaches.
    fn fetch(&self, address: u32, buffer: &mut Vec<u8>)
        ensures
            final(buffer)@.len() == old(buffer)@.len(),
            forall|i: int|
                0 <= i < old(buffer)@.len() ==> final(buffer)@[i] == if address + i
                    < self.memory@.len() {
                    self.memory@[address + i]
                } else {
                    old(buffer)@[i]
                },
    {
        let start = address as usize;
        let mut i: usize = 0;
        while i < buffer.len() && start < self.memory.len() && i < self.memory.len() - start
            invariant
                start == address,
                buffer@.len() == old(buffer)@.len(),
                i <= buffer@.len(),
                start < self.memory@.len() ==> i <= self.memory@.len() - start,
                start >= self.memory@.len() ==> i == 0,
                forall|j: int|
                    0 <= j < buffer@.len() ==> buffer@[j] == if j < i {
                        self.memory@[start + j]
                    } else {
                        old(buffer)@[j]
                    },
            decreases buffer@.len() - i,
        {
            buffer[i] = self.memory[start + i];
            i += 1;
        }
    }
}

impl Indirect for FakeChip {
    type Error = ();

    /// The chip went through its states from an erased chip on, every
    /// command was carried out, and every read of the status register brought
    /// back the status byte of the chip, busy or idle.
    open spec fn inv(&self) -> bool {
        &&& self.memory@.len() == MEMORY_SIZE
        &&& history(self.exchanges@, self.states@)
        &&& self.states@[0] == blank()
        &&& self.states@.last() == self.chip()
        &&& forall|k: int|
            0 <= k < self.exchanges@.len() ==> #[trigger] reported(self.exchanges@, self.states@, k)
    }

    open spec fn log(&self) -> Seq<Exchange> {
        self.exchanges@
    }

    open spec fn patience(&self) -> nat {
        self.busy_polls as nat
    }

    open spec fn memory(&self) -> Option<Seq<u8>> {
        Some(self.memory@)
    }

    /// The chip does what the command asks for.
    fn execute_command(&mut self, command: &mut QSPICommand) -> (result: Result<
        (),
        nb::Error<()>,
    >)
        ensures
            result is Ok,
            final(self).chip() == obeyed(old(self).chip(), old(command)@),
            final(command)@.data == answered(
                old(self).chip(),
                old(self).busy_polls > 0,
                old(command)@,
            ),
            final(self).latency == old(self).latency,
            final(self).busy_polls == if operates(old(self).chip(), old(command)@) {
                old(self).latency
            } else if old(command)@.instruction == Some(0x05u8) && old(self).busy_polls > 0 {
                (old(self).busy_polls - 1) as usize
            } else {
                old(self).busy_polls
            },
    {
        let ghost sent = command@;
        let instruction = command.instruction();
        let address = command.address();
        proof {
            reveal(obeyed);
        }
        if let Some(code) = instruction {
            self.instructions.push(code);
        }
        match instruction {
            Some(0x06) => {
                self.write_enabled = true;
            },
            Some(0x04) => {
                self.write_enabled = false;
            },
            Some(0xC7) => {
                if self.write_enabled {
                    let end = self.memory.len();
                    self.wipe(0, end);
                    self.write_enabled = false;
                    self.busy_polls = self.latency;
                }
            },
            Some(0xD8) => {
                if self.write_enabled {
                    if let Some(address) = address {
                        if (address as usize) < self.memory.len() {
                            let start = (address as usize / SECTOR_SIZE) * SECTOR_SIZE;
                            self.wipe(start, start + SECTOR_SIZE);
                            self.write_enabled = false;
                            self.busy_polls = self.latency;
                        }
                    }
                }
            },
            Some(0x02) => {
                if self.write_enabled {
                    if let Some(address) = address {
                        if let Data::Write(bytes) = command.data_ref() {
                            let start = address as usize;
                            if start <= self.memory.len() && bytes.len() <= self.memory.len()
                                - start && start % PAGE_SIZE + bytes.len() <= PAGE_SIZE {
                                let ghost before = self.memory@;
                                let mut i: usize = 0;
                                while i < bytes.len()
                                    invariant
                                        i <= bytes@.len(),
                                        start == address,
                                        start + bytes@.len() <= before.len(),
                                        before.len() == MEMORY_SIZE,
                                        self.memory@.len() == before.len(),
                                        self.write_enabled == old(self).write_enabled,
                                        self.latency == old(self).latency,
                                        self.busy_polls == old(self).busy_polls,
                                        self.exchanges == old(self).exchanges,
                                        self.states == old(self).states,
                                        forall|j: int|
                                            0 <= j < before.len() ==> self.memory@[j] == if start
                                                <= j < start + i {
                                                before[j] & bytes@[j - start]
                                            } else {
                                                before[j]
                                            },
                                    decreases bytes@.len() - i,
                                {
                                    let held = self.memory[start + i];
                                    self.memory[start + i] = held & bytes[i];
                                    i += 1;
                                }
                                assert(self.memory@ =~= programmed(before, address as int, bytes@));
                                self.write_enabled = false;
                                self.busy_polls = self.latency;
                            }
                        }
                    }
                }
            },
            _ => {},
        }
        let ghost acted = self.chip();
        assert(acted == obeyed(old(self).chip(), sent));
        match instruction {
            Some(0x05) => {
                let busy: u8 = if self.busy_polls > 0 {
                    1
                } else {
                    0
                };
                let latch: u8 = if self.write_enabled {
                    2
                } else {
                    0
                };
                if self.busy_polls > 0 {
                    self.busy_polls -= 1;
                }
                if let Data::Read(buffer) = command.data_mut() {
                    if buffer.len() > 0 {
                        buffer[0] = busy | latch;
                        proof {
                            assert(busy == 0 && (latch == 0 || latch == 2) ==> !((busy | latch)
                                >> 0u8 & 1u8 == 1u8)) by (bit_vector);
                            assert(busy | latch == status_byte(
                                old(self).busy_polls > 0,
                                old(self).write_enabled,
                            ));
                        }
                    }
                }
            },
            Some(0x9E) => {
                if let Data::Read(buffer) = command.data_mut() {
                    if buffer.len() > 0 {
                        buffer[0] = MANUFACTURER_ID;
                    }
                }
            },
            Some(0x03) => {
                if let Some(address) = address {
                    if let Data::Read(buffer) = command.data_mut() {
                        let ghost before = buffer@;
                        self.fetch(address, buffer);
                        assert(buffer@ =~= Seq::new(
                            before.len(),
                            |i: int|
                                if address + i < self.memory@.len() {
                                    self.memory@[address + i]
                                } else {
                                    before[i]
                                },
                        ));
                        proof {
                            if address + before.len() <= self.memory@.len() {
                                assert(buffer@ =~= self.memory@.subrange(
                                    address as int,
                                    address + before.len(),
                                ));
                            }
                        }
                    }
                }
            },
            _ => {},
        }
        proof {
            let ghost log = self.exchanges@;
            let ghost states = self.states@;
            self.exchanges@ = log.push(
                Exchange { sent, returned: command@.data, outcome: Outcome::Done },
            );
            self.states@ = states.push(acted);
            assert forall|k: int| 0 <= k < self.exchanges@.len() implies #[trigger] follows(
                self.exchanges@,
                self.states@,
                k,
            ) by {
                if k < log.len() {
                    assert(follows(log, states, k));
                }
            }
            assert forall|k: int| 0 <= k < self.exchanges@.len() implies #[trigger] reported(
                self.exchanges@,
                self.states@,
                k,
            ) by {
                if k < log.len() {
                    assert(reported(log, states, k));
                }
            }
        }
        Ok(())
    }
}

/// A write reaches the memory: a fake chip that a write of `bytes` at
/// `address` was sent to holds `bytes` from `address` on afterwards, and
/// everywhere else what it held before. `existing` is what the reads of the
/// write brought back, at the places `places` of the log.
pub proof fn lemma_write_reaches_memory(
    before: FakeChip,
    after: FakeChip,
    address: u32,
    bytes: Seq<u8>,
    existing: Seq<Seq<u8>>,
    places: Seq<int>,
)
    requires
        before.inv(),
        after.inv(),
        extends(before.log(), after.log()),
        address + bytes.len() <= MEMORY_SIZE,
        brought_back(
            after.log(),
            before.log().len() as int,
            memory::overlaps_of(sectors_of_chip(), address as nat, bytes.len()),
            existing,
            places,
            bytes,
            memory::overlaps_of(sectors_of_chip(), address as nat, bytes.len()).len() as int,
        ),
        sent_all_of(
            before.log(),
            after.log(),
            write_commands(
                memory::overlaps_of(sectors_of_chip(), address as nat, bytes.len()),
                existing,
                bytes,
            ),
        ),
    ensures
        after.memory@ == overlaid(before.memory@, address as int, bytes),
{
    let from = before.log().len() as int;
    lemma_history_continues(before.log(), before.states@, after.log(), after.states@, from);
    lemma_write_writes(after.log(), after.states@, from, address, bytes, existing, places);
}

/// An erase reaches the memory: a fake chip that the commands of a bulk
/// erase were sent to holds erased bytes only.
pub proof fn lemma_erase_reaches_memory(before: FakeChip, after: FakeChip)
    requires
        before.inv(),
        after.inv(),
        extends(before.log(), after.log()),
        sent_all_of(before.log(), after.log(), erase_commands()),
    ensures
        forall|i: int| 0 <= i < MEMORY_SIZE ==> #[trigger] after.memory@[i] == ERASED,
{
    lemma_erase_erases(after.log(), after.states@, before.log().len() as int);
}

/// A write from blocks reaches the memory: a fake chip that the transfers
/// of `bytes` to `address` were sent to, between the places `cuts` of its log,
/// holds `bytes` from `address` on afterwards, and everywhere else what it
/// held before.
pub proof fn lemma_transfers_reach_memory(
    before: FakeChip,
    after: FakeChip,
    address: u32,
    bytes: Seq<u8>,
    cuts: Seq<int>,
    existing: Seq<Seq<Seq<u8>>>,
    places: Seq<Seq<int>>,
)
    requires
        before.inv(),
        after.inv(),
        extends(before.log(), after.log()),
        address + bytes.len() <= MEMORY_SIZE,
        transfers_written(
            after.log(),
            cuts,
            existing,
            places,
            bytes,
            address as nat,
            bytes.len() as int / SECTOR_SIZE as int + 1,
        ),
        cuts[0] == before.log().len(),
        cuts.last() == after.log().len(),
    ensures
        after.memory@ == overlaid(before.memory@, address as int, bytes),
{
    let from = before.log().len() as int;
    lemma_history_continues(before.log(), before.states@, after.log(), after.states@, from);
    lemma_transfers_write(after.log(), after.states@, cuts, existing, places, bytes, address);
}

/// A read shows the memory: a fake chip that was asked for its status and
/// then for the bytes at `address` brought back what it held there, and
/// holds what it held.
pub proof fn lemma_read_shows_memory(
    before: FakeChip,
    after: FakeChip,
    address: u32,
    buffer: Seq<u8>,
    bytes: Seq<u8>,
)
    requires
        before.inv(),
        after.inv(),
        extends(before.log(), after.log()),
        after.log().len() == before.log().len() + 2,
        is_poll(after.log()[before.log().len() as int].sent),
        after.log().last().sent == on_the_bus(
            Command::Read,
            Some(address),
            DataView::Read(buffer),
        ),
        after.log().last().returned == DataView::Read(bytes),
        address + buffer.len() <= MEMORY_SIZE,
    ensures
        bytes == before.memory@.subrange(address as int, address + buffer.len()),
        after.memory@ == before.memory@,
{
    let n = before.log().len() as int;
    lemma_history_continues(before.log(), before.states@, after.log(), after.states@, n);
    assert(follows(after.log(), after.states@, n));
    assert(follows(after.log(), after.states@, n + 1));
    reveal(obeyed);
    assert(bytes =~= before.memory@.subrange(address as int, address + buffer.len()));
}

/// Write, then read, through the driver: bytes that a read brings back
/// from a fake chip, from the place that a write of as many bytes went to,
/// are the bytes that were written.
pub proof fn lemma_round_trip(
    before: FakeChip,
    after: FakeChip,
    address: u32,
    bytes: Seq<u8>,
    existing: Seq<Seq<u8>>,
    places: Seq<int>,
    read: Seq<u8>,
)
    requires
        before.inv(),
        after.inv(),
        extends(before.log(), after.log()),
        address + bytes.len() <= MEMORY_SIZE,
        brought_back(
            after.log(),
            before.log().len() as int,
            memory::overlaps_of(sectors_of_chip(), address as nat, bytes.len()),
            existing,
            places,
            bytes,
            memory::overlaps_of(sectors_of_chip(), address as nat, bytes.len()).len() as int,
        ),
        sent_all_of(
            before.log(),
            after.log(),
            write_commands(
                memory::overlaps_of(sectors_of_chip(), address as nat, bytes.len()),
                existing,
                bytes,
            ),
        ),
        read.len() == bytes.len(),
        held_at(Some((0nat, after.memory@)), address as nat, read),
    ensures
        read == bytes,
{
    lemma_write_reaches_memory(before, after, address, bytes, existing, places);
    lemma_read_after_write(before.memory@, address as int, bytes);
}

/// Erase, then read, through the driver: bytes that a read brings back
/// from a fake chip that the commands of a bulk erase were sent to are
/// erased bytes.
pub proof fn lemma_erased_is_read(before: FakeChip, after: FakeChip, address: u32, read: Seq<u8>)
    requires
        before.inv(),
        after.inv(),
        extends(before.log(), after.log()),
        sent_all_of(before.log(), after.log(), erase_commands()),
        held_at(Some((0nat, after.memory@)), address as nat, read),
    ensures
        forall|i: int| 0 <= i < read.len() ==> read[i] == ERASED,
{
    lemma_erase_reaches_memory(before, after);
    assert forall|i: int| 0 <= i < read.len() implies read[i] == ERASED by {
        assert(read[i] == after.memory@[address + i]);
    }
}

/// What an operation does to every chip whose reads are true, it does to
/// a fake chip: a fake chip holds after a write what the write leaves, and
/// before it what it held.
pub proof fn lemma_fake_chip_is_true(before: FakeChip, after: FakeChip)
    requires
        before.inv(),
        after.inv(),
        extends(before.log(), after.log()),
    ensures
        history(after.log(), after.states@),
        after.states@.last().memory == after.memory@,
        after.states@[before.log().len() as int].memory == before.memory@,
{
    let from = before.log().len() as int;
    lemma_history_continues(before.log(), before.states@, after.log(), after.states@, from);
}

} // verus!
