//! What the Micron N25Q128A does with the commands it is sent, and what the
//! commands of the driver therefore leave in its memory.
use crate::drivers::micron::n25q128a_flash::BASE_ADDRESS;
use crate::drivers::micron::n25q128a_flash::Command;
use crate::drivers::micron::n25q128a_flash::MANUFACTURER_ID;
use crate::drivers::micron::n25q128a_flash::MEMORY_SIZE;
use crate::drivers::micron::n25q128a_flash::PAGE_SIZE;
use crate::drivers::micron::n25q128a_flash::SECTOR_SIZE;
use crate::drivers::micron::n25q128a_flash::bare;
use crate::drivers::micron::n25q128a_flash::brought_back;
use crate::drivers::micron::n25q128a_flash::is_poll;
use crate::drivers::micron::n25q128a_flash::merged;
use crate::drivers::micron::n25q128a_flash::extends;
use crate::drivers::micron::n25q128a_flash::needs_erase;
use crate::drivers::micron::n25q128a_flash::on_the_bus;
use crate::drivers::micron::n25q128a_flash::lemma_subset_writes_never_erase;
use crate::drivers::micron::n25q128a_flash::page_program;
use crate::drivers::micron::n25q128a_flash::piece_needs_erase;
use crate::drivers::micron::n25q128a_flash::page_programs;
use crate::drivers::micron::n25q128a_flash::pages_of;
use crate::drivers::micron::n25q128a_flash::sector_commands;
use crate::drivers::micron::n25q128a_flash::sector_erase;
use crate::drivers::micron::n25q128a_flash::sector_read;
use crate::drivers::micron::n25q128a_flash::sent;
use crate::drivers::micron::n25q128a_flash::sent_all_of;
use crate::drivers::micron::n25q128a_flash::sectors_of_chip;
use crate::drivers::micron::n25q128a_flash::transfer;
use crate::drivers::micron::n25q128a_flash::transfer_written;
use crate::drivers::micron::n25q128a_flash::transfers_written;
use crate::drivers::micron::n25q128a_flash::write_commands;
use crate::hal::flash::ERASED;
use crate::hal::flash::erased;
use crate::hal::flash::overlaid;
use crate::hal::qspi::CommandView;
use crate::hal::qspi::DataView;
use crate::hal::qspi::Exchange;
use crate::utilities::bitwise::byte_is_subset;
use crate::utilities::bitwise::is_bit_subset;
use crate::utilities::bitwise::lemma_subset_of_erased;
use crate::utilities::bitwise::lemma_subset_programs_exactly;
use crate::utilities::memory;
use vstd::prelude::*;

verus! {

/// The state of the chip: what its memory holds, and whether the write
/// enable latch is set.
pub struct Chip {
    pub memory: Seq<u8>,
    pub write_enabled: bool,
}

/// `memory` after `bytes` were programmed at position `address`:
/// programming clears the bits that are clear in `bytes` and sets none.
pub open spec fn programmed(memory: Seq<u8>, address: int, bytes: Seq<u8>) -> Seq<u8> {
    Seq::new(
        memory.len(),
        |i: int|
            if address <= i < address + bytes.len() {
                memory[i] & bytes[i - address]
            } else {
                memory[i]
            },
    )
}

/// Position of the first byte of the sector that holds position `address`.
pub open spec fn sector_start(address: int) -> int {
    (address / SECTOR_SIZE as int) * SECTOR_SIZE
}

/// Whether `len` bytes from position `address` on lie in the memory and in
/// one page of it.
pub open spec fn in_one_page(memory: Seq<u8>, address: int, len: int) -> bool {
    &&& address + len <= memory.len()
    &&& address % PAGE_SIZE as int + len <= PAGE_SIZE
}

/// The state of the chip after it was sent `command`. Programming and
/// erasing take the write enable latch, and clear it. A page program is
/// carried out where its bytes lie in one page, a sector erase where its
/// address lies in the memory. Other commands change nothing.
#[verifier::opaque]
pub open spec fn obeyed(chip: Chip, command: CommandView) -> Chip {
    if command.instruction == Some(Command::WriteEnable.spec_opcode()) {
        Chip { write_enabled: true, ..chip }
    } else if command.instruction == Some(Command::WriteDisable.spec_opcode()) {
        Chip { write_enabled: false, ..chip }
    } else if !chip.write_enabled {
        chip
    } else if command.instruction == Some(Command::BulkErase.spec_opcode()) {
        Chip { memory: erased(chip.memory, 0, chip.memory.len() as int), write_enabled: false }
    } else if command.instruction == Some(Command::SectorErase.spec_opcode()) {
        match command.address {
            Some(address) => if address < chip.memory.len() {
                Chip {
                    memory: erased(
                        chip.memory,
                        sector_start(address as int),
                        sector_start(address as int) + SECTOR_SIZE,
                    ),
                    write_enabled: false,
                }
            } else {
                chip
            },
            None => chip,
        }
    } else if command.instruction == Some(Command::PageProgram.spec_opcode()) {
        match (command.address, command.data) {
            (Some(address), DataView::Write(bytes)) => if in_one_page(
                chip.memory,
                address as int,
                bytes.len() as int,
            ) {
                Chip {
                    memory: programmed(chip.memory, address as int, bytes),
                    write_enabled: false,
                }
            } else {
                chip
            },
            _ => chip,
        }
    } else {
        chip
    }
}

/// Whether `command` starts a program or erase operation on the chip: it
/// is one of these commands, the write enable latch is set, and the chip can
/// carry the command out.
pub open spec fn operates(chip: Chip, command: CommandView) -> bool {
    &&& chip.write_enabled
    &&& {
        ||| command.instruction == Some(Command::BulkErase.spec_opcode())
        ||| {
            &&& command.instruction == Some(Command::SectorErase.spec_opcode())
            &&& command.address matches Some(address)
            &&& address < chip.memory.len()
        }
        ||| {
            &&& command.instruction == Some(Command::PageProgram.spec_opcode())
            &&& command.address matches Some(address)
            &&& command.data matches DataView::Write(bytes)
            &&& in_one_page(chip.memory, address as int, bytes.len() as int)
        }
    }
}

/// The status byte of a chip: bit 0 tells an operation in progress, bit 1
/// the write enable latch.
pub open spec fn status_byte(busy: bool, write_enabled: bool) -> u8 {
    (if busy {
        1u8
    } else {
        0u8
    }) | (if write_enabled {
        2u8
    } else {
        0u8
    })
}

/// What the chip leaves in the data of a command that it is sent. A read
/// of the status register or of the id fills the first byte of the buffer, a
/// read of the memory as much of the buffer as the memory reaches for.
/// Other data stay as they are.
pub open spec fn answered(chip: Chip, busy: bool, command: CommandView) -> DataView {
    match command.data {
        DataView::Read(buffer) => {
            if command.instruction == Some(Command::ReadStatus.spec_opcode()) {
                if buffer.len() > 0 {
                    DataView::Read(buffer.update(0, status_byte(busy, chip.write_enabled)))
                } else {
                    command.data
                }
            } else if command.instruction == Some(Command::ReadId.spec_opcode()) {
                if buffer.len() > 0 {
                    DataView::Read(buffer.update(0, MANUFACTURER_ID))
                } else {
                    command.data
                }
            } else if command.instruction == Some(Command::Read.spec_opcode()) {
                match command.address {
                    Some(address) => DataView::Read(
                        Seq::new(
                            buffer.len(),
                            |i: int|
                                if address + i < chip.memory.len() {
                                    chip.memory[address + i]
                                } else {
                                    buffer[i]
                                },
                        ),
                    ),
                    None => command.data,
                }
            } else {
                command.data
            }
        },
        _ => command.data,
    }
}

/// The state of the chip after it was sent `commands`, one after the
/// other.
pub open spec fn after(chip: Chip, commands: Seq<CommandView>) -> Chip
    decreases commands.len(),
{
    if commands.len() == 0 {
        chip
    } else {
        obeyed(after(chip, commands.drop_last()), commands.last())
    }
}

/// Commands sent one after the other act one after the other.
pub proof fn lemma_after_both(chip: Chip, first: Seq<CommandView>, second: Seq<CommandView>)
    ensures
        after(chip, first + second) == after(after(chip, first), second),
    decreases second.len(),
{
    if second.len() == 0 {
        assert(first + second =~= first);
    } else {
        lemma_after_both(chip, first, second.drop_last());
        assert((first + second).drop_last() =~= first + second.drop_last());
        assert((first + second).last() == second.last());
    }
}

/// One command acts as the chip obeys it.
pub proof fn lemma_after_one(chip: Chip, command: CommandView)
    ensures
        after(chip, seq![command]) == obeyed(chip, command),
{
    let commands = seq![command];
    assert(commands.drop_last() =~= Seq::<CommandView>::empty());
    assert(after(chip, commands.drop_last()) == chip);
}

/// Two commands act one after the other.
pub proof fn lemma_after_two(chip: Chip, first: CommandView, second: CommandView)
    ensures
        after(chip, seq![first, second]) == obeyed(obeyed(chip, first), second),
{
    let commands = seq![first, second];
    assert(commands.drop_last() =~= seq![first]);
    lemma_after_one(chip, first);
}

/// A write enable and a page program of bytes that lie in one page leave
/// the bytes programmed and the latch clear.
pub proof fn lemma_enabled_program(chip: Chip, address: u32, bytes: Seq<u8>)
    requires
        in_one_page(chip.memory, address as int, bytes.len() as int),
    ensures
        after(chip, seq![bare(Command::WriteEnable), page_program(address, bytes)]) == (Chip {
            memory: programmed(chip.memory, address as int, bytes),
            write_enabled: false,
        }),
{
    reveal(obeyed);
    lemma_after_two(chip, bare(Command::WriteEnable), page_program(address, bytes));
}

/// A write enable and a sector erase leave the sector erased and the latch
/// clear.
pub proof fn lemma_enabled_sector_erase(chip: Chip, location: nat)
    requires
        location < chip.memory.len() <= u32::MAX,
        location % SECTOR_SIZE as nat == 0,
    ensures
        after(chip, seq![bare(Command::WriteEnable), sector_erase(location)]) == (Chip {
            memory: erased(chip.memory, location as int, location + SECTOR_SIZE),
            write_enabled: false,
        }),
{
    reveal(obeyed);
    lemma_after_two(chip, bare(Command::WriteEnable), sector_erase(location));
    assert(sector_start(location as int) == location);
}

/// The read of a sector changes nothing.
pub proof fn lemma_read_changes_nothing(chip: Chip, location: nat)
    ensures
        after(chip, seq![sector_read(location)]) == chip,
{
    reveal(obeyed);
    lemma_after_one(chip, sector_read(location));
}

/// The commands that the driver erases the whole chip with.
pub open spec fn erase_commands() -> Seq<CommandView> {
    seq![bare(Command::WriteEnable), bare(Command::BulkErase), bare(Command::WriteDisable)]
}

/// Erase, then read: the commands of a bulk erase leave the whole memory
/// erased, and reading anywhere after them gives erased bytes.
pub proof fn lemma_erase_commands_erase(chip: Chip)
    ensures
        after(chip, erase_commands()).memory == erased(chip.memory, 0, chip.memory.len() as int),
        forall|i: int|
            0 <= i < chip.memory.len() ==> #[trigger] after(chip, erase_commands()).memory[i]
                == ERASED,
{
    reveal(obeyed);
    let commands = erase_commands();
    assert(commands.drop_last() =~= seq![bare(Command::WriteEnable), bare(Command::BulkErase)]);
    lemma_after_two(chip, bare(Command::WriteEnable), bare(Command::BulkErase));
}

/// Bounds of the pages of a sector follow each other without gap.
pub proof fn lemma_pages_tile(location: nat, base: nat, len: nat)
    requires
        location <= base,
        base + len <= location + SECTOR_SIZE,
        location + SECTOR_SIZE <= MEMORY_SIZE,
    ensures
        memory::tiles(
            memory::overlaps_of(pages_of(location), base, len),
            pages_of(location),
            base,
            0,
            len,
        ),
{
    let bounds = pages_of(location);
    assert(memory::contiguous(bounds)) by {
        assert forall|k: int| 0 < k < bounds.len() implies #[trigger] memory::adjoins(bounds, k) by {}
    }
    memory::lemma_overlaps_tile(bounds, base, len);
}

/// Bounds of the sectors of the chip follow each other without gap.
pub proof fn lemma_sectors_tile(base: nat, len: nat)
    requires
        base + len <= MEMORY_SIZE,
    ensures
        memory::tiles(
            memory::overlaps_of(sectors_of_chip(), base, len),
            sectors_of_chip(),
            base,
            0,
            len,
        ),
{
    let bounds = sectors_of_chip();
    assert(memory::contiguous(bounds)) by {
        assert forall|k: int| 0 < k < bounds.len() implies #[trigger] memory::adjoins(bounds, k) by {}
    }
    memory::lemma_overlaps_tile(bounds, base, len);
}

/// Programming a piece of `data` that is a bit subset of what the memory
/// holds in its place leaves the piece in the memory.
pub proof fn lemma_program_writes(
    initial: Seq<u8>,
    current: Seq<u8>,
    base: nat,
    data: Seq<u8>,
    start: int,
    end: int,
)
    requires
        0 <= start <= end <= data.len(),
        base + data.len() <= initial.len(),
        current == overlaid(initial, base as int, data.take(start)),
        forall|k: int|
            0 <= k < data.len() ==> byte_is_subset(#[trigger] data[k], initial[base + k]),
    ensures
        programmed(current, base + start, data.subrange(start, end)) == overlaid(
            initial,
            base as int,
            data.take(end),
        ),
{
    let chunk = data.subrange(start, end);
    assert forall|i: int| base + start <= i < base + end implies current[i] & chunk[i - (base
        + start)] == data[i - base] by {
        let k = i - base;
        assert(byte_is_subset(data[k], initial[base + k]));
        lemma_subset_programs_exactly(data[k], initial[base + k]);
    }
    assert(programmed(current, base + start, chunk) =~= overlaid(
        initial,
        base as int,
        data.take(end),
    ));
}

/// Programming `data` page by page, where every byte of `data` is a bit
/// subset of the byte in its place, leaves `data` in memory and nothing else
/// changed.
pub proof fn lemma_page_programs_write(
    chip: Chip,
    location: nat,
    base: nat,
    data: Seq<u8>,
    count: int,
)
    requires
        chip.memory.len() == MEMORY_SIZE,
        location % SECTOR_SIZE as nat == 0,
        location + SECTOR_SIZE <= MEMORY_SIZE,
        location <= base,
        base + data.len() <= location + SECTOR_SIZE,
        forall|k: int|
            0 <= k < data.len() ==> byte_is_subset(#[trigger] data[k], chip.memory[base + k]),
        0 <= count <= memory::overlaps_of(pages_of(location), base, data.len()).len(),
    ensures
        after(
            chip,
            page_programs(
                memory::overlaps_of(pages_of(location), base, data.len()).take(count),
                data,
            ),
        ).memory == overlaid(
            chip.memory,
            base as int,
            data.take(
                memory::reached(
                    memory::overlaps_of(pages_of(location), base, data.len()),
                    count,
                    data.len(),
                ) as int,
            ),
        ),
    decreases count,
{
    let bounds = pages_of(location);
    let pieces = memory::overlaps_of(bounds, base, data.len());
    lemma_pages_tile(location, base, data.len());
    memory::lemma_tiles_reach(pieces, bounds, base, 0, data.len(), count);
    if count == 0 {
        assert(pieces.take(0) =~= Seq::<memory::Overlap>::empty());
        assert(chip.memory =~= overlaid(chip.memory, base as int, data.take(0)));
    } else {
        lemma_page_programs_write(chip, location, base, data, count - 1);
        memory::lemma_overlap_fits(bounds, base, data.len(), count - 1);
        let piece = pieces[count - 1];
        let chunk = data.subrange(piece.start as int, piece.end as int);
        let before = page_programs(pieces.take(count - 1), data);
        let step = seq![bare(Command::WriteEnable), page_program(piece.address, chunk)];
        assert(pieces.take(count).drop_last() =~= pieces.take(count - 1));
        assert(pieces.take(count).last() == piece);
        assert(page_programs(pieces.take(count), data) =~= before + step);
        lemma_after_both(chip, before, step);
        let reached = after(chip, before);
        assert(bounds[piece.block as int].0 == location + piece.block * PAGE_SIZE);
        assert(in_one_page(reached.memory, piece.address as int, chunk.len() as int));
        lemma_enabled_program(reached, piece.address, chunk);
        lemma_program_writes(
            chip.memory,
            reached.memory,
            base,
            data,
            piece.start as int,
            piece.end as int,
        );
    }
}

/// The commands that write `bytes` into a sector leave `bytes` in the
/// memory and nothing else changed, if `existing` is what the sector held.
pub proof fn lemma_sector_commands_write(chip: Chip, location: nat, bytes: Seq<u8>, address: u32)
    requires
        chip.memory.len() == MEMORY_SIZE,
        location % SECTOR_SIZE as nat == 0,
        location + SECTOR_SIZE <= MEMORY_SIZE,
        location <= address,
        address + bytes.len() <= location + SECTOR_SIZE,
    ensures
        after(
            chip,
            sector_commands(
                location,
                chip.memory.subrange(location as int, location + SECTOR_SIZE),
                bytes,
                address,
            ),
        ).memory == overlaid(chip.memory, address as int, bytes),
{
    let existing = chip.memory.subrange(location as int, location + SECTOR_SIZE);
    let offset = address - location;
    if needs_erase(location, existing, bytes, address) {
        let erase = seq![bare(Command::WriteEnable), sector_erase(location)];
        let data = merged(existing, offset, bytes);
        let pieces = memory::overlaps_of(pages_of(location), location, SECTOR_SIZE as nat);
        let programs = page_programs(pieces, data);
        lemma_after_both(chip, erase, programs);
        lemma_enabled_sector_erase(chip, location);
        let blank = after(chip, erase);
        assert forall|k: int| 0 <= k < data.len() implies byte_is_subset(
            #[trigger] data[k],
            blank.memory[location + k],
        ) by {
            lemma_subset_of_erased(data[k]);
        }
        lemma_page_programs_write(blank, location, location, data, pieces.len() as int);
        assert(pieces.take(pieces.len() as int) =~= pieces);
        assert(data.take(data.len() as int) =~= data);
        assert(memory::reached(pieces, pieces.len() as int, data.len()) == data.len());
        assert(overlaid(blank.memory, location as int, data) =~= overlaid(
            chip.memory,
            address as int,
            bytes,
        ));
    } else {
        let pieces = memory::overlaps_of(pages_of(location), address as nat, bytes.len());
        assert forall|k: int| 0 <= k < bytes.len() implies byte_is_subset(
            #[trigger] bytes[k],
            chip.memory[address + k],
        ) by {
            assert(existing.skip(offset)[k] == chip.memory[address + k]);
        }
        lemma_page_programs_write(chip, location, address as nat, bytes, pieces.len() as int);
        assert(pieces.take(pieces.len() as int) =~= pieces);
        assert(bytes.take(bytes.len() as int) =~= bytes);
        assert(memory::reached(pieces, pieces.len() as int, bytes.len()) == bytes.len());
    }
}

/// Whether `existing` is what the sectors held that the pieces `pieces`
/// fall into.
pub open spec fn held(memory: Seq<u8>, pieces: Seq<memory::Overlap>, existing: Seq<Seq<u8>>) -> bool {
    &&& existing.len() == pieces.len()
    &&& forall|i: int|
        0 <= i < pieces.len() ==> #[trigger] existing[i] == memory.subrange(
            BASE_ADDRESS + pieces[i].block * SECTOR_SIZE,
            BASE_ADDRESS + pieces[i].block * SECTOR_SIZE + SECTOR_SIZE,
        )
}

/// Whether `existing` is what the first `count` of the sectors held that
/// the pieces `pieces` fall into.
pub open spec fn held_first(
    memory: Seq<u8>,
    pieces: Seq<memory::Overlap>,
    existing: Seq<Seq<u8>>,
    count: int,
) -> bool {
    &&& count <= existing.len()
    &&& forall|i: int|
        0 <= i < count ==> #[trigger] existing[i] == memory.subrange(
            BASE_ADDRESS + pieces[i].block * SECTOR_SIZE,
            BASE_ADDRESS + pieces[i].block * SECTOR_SIZE + SECTOR_SIZE,
        )
}

/// The commands of the first `count` sectors of a write leave the bytes
/// that fall into these sectors in the memory and nothing else changed.
pub proof fn lemma_write_commands_partly(
    chip: Chip,
    address: u32,
    bytes: Seq<u8>,
    existing: Seq<Seq<u8>>,
    count: int,
)
    requires
        chip.memory.len() == MEMORY_SIZE,
        address + bytes.len() <= MEMORY_SIZE,
        0 <= count <= memory::overlaps_of(sectors_of_chip(), address as nat, bytes.len()).len(),
        held_first(
            chip.memory,
            memory::overlaps_of(sectors_of_chip(), address as nat, bytes.len()),
            existing,
            count,
        ),
    ensures
        after(
            chip,
            write_commands(
                memory::overlaps_of(sectors_of_chip(), address as nat, bytes.len()).take(count),
                existing.take(count),
                bytes,
            ),
        ).memory == overlaid(
            chip.memory,
            address as int,
            bytes.take(
                memory::reached(
                    memory::overlaps_of(sectors_of_chip(), address as nat, bytes.len()),
                    count,
                    bytes.len(),
                ) as int,
            ),
        ),
    decreases count,
{
    let bounds = sectors_of_chip();
    let pieces = memory::overlaps_of(bounds, address as nat, bytes.len());
    lemma_sectors_tile(address as nat, bytes.len());
    memory::lemma_tiles_reach(pieces, bounds, address as nat, 0, bytes.len(), count);
    if count == 0 {
        assert(pieces.take(0) =~= Seq::<memory::Overlap>::empty());
        assert(chip.memory =~= overlaid(chip.memory, address as int, bytes.take(0)));
    } else {
        lemma_write_commands_partly(chip, address, bytes, existing, count - 1);
        memory::lemma_overlap_fits(bounds, address as nat, bytes.len(), count - 1);
        let piece = pieces[count - 1];
        let location = (BASE_ADDRESS + piece.block * SECTOR_SIZE) as nat;
        let chunk = bytes.subrange(piece.start as int, piece.end as int);
        let before = write_commands(pieces.take(count - 1), existing.take(count - 1), bytes);
        let read = seq![sector_read(location)];
        let write = sector_commands(location, existing[count - 1], chunk, piece.address);
        assert(pieces.take(count).drop_last() =~= pieces.take(count - 1));
        assert(existing.take(count).drop_last() =~= existing.take(count - 1));
        assert(pieces.take(count).last() == piece);
        assert(existing.take(count).last() == existing[count - 1]);
        assert(write_commands(pieces.take(count), existing.take(count), bytes) == before + read
            + write);
        lemma_after_both(chip, before + read, write);
        lemma_after_both(chip, before, read);
        let reached = after(chip, before);
        lemma_read_changes_nothing(reached, location);
        assert(bounds[piece.block as int].0 == location);
        assert(existing[count - 1] =~= reached.memory.subrange(
            location as int,
            location + SECTOR_SIZE,
        ));
        lemma_sector_commands_write(reached, location, chunk, piece.address);
        crate::hal::flash::lemma_write_piecewise(
            chip.memory,
            address as int,
            bytes,
            piece.start as int,
            piece.end as int,
        );
    }
}

/// Write, then read: a chip that is sent the commands of a write of
/// `bytes` at `address`, where `existing` is what it held in the sectors
/// that were read, holds `bytes` from `address` on afterwards and everywhere
/// else what it held before. Reading the range gives `bytes` back.
pub proof fn lemma_write_commands_write(
    chip: Chip,
    address: u32,
    bytes: Seq<u8>,
    existing: Seq<Seq<u8>>,
)
    requires
        chip.memory.len() == MEMORY_SIZE,
        address + bytes.len() <= MEMORY_SIZE,
        held(
            chip.memory,
            memory::overlaps_of(sectors_of_chip(), address as nat, bytes.len()),
            existing,
        ),
    ensures
        after(
            chip,
            write_commands(
                memory::overlaps_of(sectors_of_chip(), address as nat, bytes.len()),
                existing,
                bytes,
            ),
        ).memory == overlaid(chip.memory, address as int, bytes),
        after(
            chip,
            write_commands(
                memory::overlaps_of(sectors_of_chip(), address as nat, bytes.len()),
                existing,
                bytes,
            ),
        ).memory.subrange(address as int, address + bytes.len()) == bytes,
{
    let pieces = memory::overlaps_of(sectors_of_chip(), address as nat, bytes.len());
    lemma_write_commands_partly(chip, address, bytes, existing, pieces.len() as int);
    assert(pieces.take(pieces.len() as int) =~= pieces);
    assert(existing.take(pieces.len() as int) =~= existing);
    assert(bytes.take(bytes.len() as int) =~= bytes);
    assert(memory::reached(pieces, pieces.len() as int, bytes.len()) == bytes.len());
    crate::hal::flash::lemma_read_after_write(chip.memory, address as int, bytes);
}

/// Index of the first byte of `bytes` behind the first `count` transfers.
pub open spec fn transferred(bytes: Seq<u8>, count: int) -> int {
    if count * SECTOR_SIZE <= bytes.len() {
        count * SECTOR_SIZE
    } else {
        bytes.len() as int
    }
}

/// The commands of a log, in order, reads of the status register and all.
pub open spec fn all_sent(log: Seq<Exchange>) -> Seq<CommandView> {
    Seq::new(log.len(), |k: int| log[k].sent)
}

/// Whether exchange number `k` of `log` took the chip from state number `k`
/// of `states` to the state after it, and, where it was a read of the
/// memory, brought back what the memory held.
pub open spec fn follows(log: Seq<Exchange>, states: Seq<Chip>, k: int) -> bool {
    &&& states[k].memory.len() == MEMORY_SIZE
    &&& states[k + 1] == obeyed(states[k], log[k].sent)
    &&& log[k].sent.instruction == Some(Command::Read.spec_opcode()) ==> log[k].returned
        == answered(states[k], false, log[k].sent)
}

/// Whether `states` are the states that a chip went through as it
/// exchanged `log`: the state before each exchange, and last the state after
/// them all.
pub open spec fn history(log: Seq<Exchange>, states: Seq<Chip>) -> bool {
    &&& states.len() == log.len() + 1
    &&& states.last().memory.len() == MEMORY_SIZE
    &&& forall|k: int| 0 <= k < log.len() ==> #[trigger] follows(log, states, k)
}

/// Reads of the status register leave the chip as it is: what the chip is
/// after all commands of a log, it is after those that are no such reads.
pub proof fn lemma_polls_change_nothing(chip: Chip, log: Seq<Exchange>)
    ensures
        after(chip, all_sent(log)) == after(chip, sent(log)),
    decreases log.len(),
{
    if log.len() > 0 {
        lemma_polls_change_nothing(chip, log.drop_last());
        assert(all_sent(log).drop_last() =~= all_sent(log.drop_last()));
        assert(all_sent(log).last() == log.last().sent);
        if is_poll(log.last().sent) {
            reveal(obeyed);
        } else {
            assert(sent(log).drop_last() =~= sent(log.drop_last()));
        }
    } else {
        assert(all_sent(log) =~= Seq::<CommandView>::empty());
    }
}

/// The commands sent in two logs, one after the other, are those of the
/// first and then those of the second.
pub proof fn lemma_sent_both(first: Seq<Exchange>, second: Seq<Exchange>)
    ensures
        sent(first + second) == sent(first) + sent(second),
    decreases second.len(),
{
    if second.len() == 0 {
        assert(first + second =~= first);
        assert(sent(first) + sent(second) =~= sent(first));
    } else {
        lemma_sent_both(first, second.drop_last());
        assert((first + second).drop_last() =~= first + second.drop_last());
        assert((first + second).last() == second.last());
        if !is_poll(second.last().sent) {
            assert(sent(first + second) =~= sent(first) + sent(second));
        }
    }
}

/// The state of a chip at a place of its history follows from its state
/// at an earlier place by the commands exchanged in between.
pub proof fn lemma_history_between(log: Seq<Exchange>, states: Seq<Chip>, from: int, to: int)
    requires
        history(log, states),
        0 <= from <= to <= log.len(),
    ensures
        states[to] == after(states[from], sent(log.subrange(from, to))),
        states[to].memory.len() == MEMORY_SIZE,
    decreases to - from,
{
    let between = log.subrange(from, to);
    lemma_polls_change_nothing(states[from], between);
    if to == from {
        assert(all_sent(between) =~= Seq::<CommandView>::empty());
        if from < log.len() {
            assert(follows(log, states, from));
        } else {
            assert(states[from] == states.last());
        }
    } else {
        lemma_history_between(log, states, from, to - 1);
        lemma_polls_change_nothing(states[from], log.subrange(from, to - 1));
        assert(follows(log, states, to - 1));
        assert(all_sent(between).drop_last() =~= all_sent(log.subrange(from, to - 1)));
        assert(all_sent(between).last() == log[to - 1].sent);
        if to < log.len() {
            assert(follows(log, states, to));
        }
    }
}

/// What was sent between two places of a log is what was sent up to the
/// second place without what was sent up to the first.
pub proof fn lemma_sent_between(log: Seq<Exchange>, from: int, to: int, added: Seq<CommandView>)
    requires
        0 <= from <= to <= log.len(),
        sent(log.take(to)) == sent(log.take(from)) + added,
    ensures
        sent(log.subrange(from, to)) == added,
{
    lemma_sent_both(log.take(from), log.subrange(from, to));
    assert(log.take(to) =~= log.take(from) + log.subrange(from, to));
    let before = sent(log.take(from));
    let between = sent(log.subrange(from, to));
    assert(between =~= added) by {
        assert(before + between == before + added);
        assert((before + between).len() == before.len() + between.len());
        assert((before + added).len() == before.len() + added.len());
        assert(between.len() == added.len());
        assert forall|i: int| 0 <= i < between.len() implies between[i] == added[i] by {
            assert((before + between)[before.len() + i] == between[i]);
            assert((before + added)[before.len() + i] == added[i]);
        }
    }
}

/// A chip whose reads are true holds, when a sector is read in the course
/// of a write, what it held in the sector before the write: the first `count`
/// reads brought back what the sectors held at first.
pub proof fn lemma_reads_bring_back_what_was_held(
    log: Seq<Exchange>,
    states: Seq<Chip>,
    from: int,
    address: u32,
    bytes: Seq<u8>,
    existing: Seq<Seq<u8>>,
    places: Seq<int>,
    count: int,
)
    requires
        history(log, states),
        0 <= from <= log.len(),
        address + bytes.len() <= MEMORY_SIZE,
        0 <= count <= memory::overlaps_of(sectors_of_chip(), address as nat, bytes.len()).len(),
        brought_back(
            log,
            from,
            memory::overlaps_of(sectors_of_chip(), address as nat, bytes.len()),
            existing,
            places,
            bytes,
            memory::overlaps_of(sectors_of_chip(), address as nat, bytes.len()).len() as int,
        ),
    ensures
        held_first(
            states[from].memory,
            memory::overlaps_of(sectors_of_chip(), address as nat, bytes.len()),
            existing,
            count,
        ),
    decreases count,
{
    let bounds = sectors_of_chip();
    let pieces = memory::overlaps_of(bounds, address as nat, bytes.len());
    let held = states[from].memory;
    lemma_history_between(log, states, from, from);
    if count > 0 {
        lemma_reads_bring_back_what_was_held(
            log,
            states,
            from,
            address,
            bytes,
            existing,
            places,
            count - 1,
        );
        let i = count - 1;
        let place = places[i];
        let piece = pieces[i];
        let location = (BASE_ADDRESS + piece.block * SECTOR_SIZE) as nat;
        let before = write_commands(pieces.take(i), existing.take(i), bytes);
        lemma_sent_between(log, from, place, before);
        lemma_history_between(log, states, from, place);
        lemma_write_commands_partly(states[from], address, bytes, existing, i);
        lemma_sectors_tile(address as nat, bytes.len());
        memory::lemma_tiles_reach(pieces, bounds, address as nat, 0, bytes.len(), count);
        memory::lemma_overlap_fits(bounds, address as nat, bytes.len(), i);
        assert(bounds[piece.block as int].0 == location);
        let read = states[place].memory;
        assert(read == overlaid(held, address as int, bytes.take(piece.start as int)));
        assert(follows(log, states, place));
        assert(existing[i] =~= held.subrange(location as int, location + SECTOR_SIZE)) by {
            assert(log[place].returned == DataView::Read(existing[i]));
            assert forall|j: int| 0 <= j < SECTOR_SIZE implies existing[i][j] == held[location
                + j] by {
                assert(read[location + j] == held[location + j]);
            }
        }
    }
}

/// Write, then read, on a chip whose reads are true: a chip that went
/// through a write of `bytes` at `address` holds `bytes` from `address` on
/// afterwards, and everywhere else what it held before the write.
pub proof fn lemma_write_writes(
    log: Seq<Exchange>,
    states: Seq<Chip>,
    from: int,
    address: u32,
    bytes: Seq<u8>,
    existing: Seq<Seq<u8>>,
    places: Seq<int>,
)
    requires
        history(log, states),
        0 <= from <= log.len(),
        address + bytes.len() <= MEMORY_SIZE,
        brought_back(
            log,
            from,
            memory::overlaps_of(sectors_of_chip(), address as nat, bytes.len()),
            existing,
            places,
            bytes,
            memory::overlaps_of(sectors_of_chip(), address as nat, bytes.len()).len() as int,
        ),
        sent_all_of(
            log.take(from),
            log,
            write_commands(
                memory::overlaps_of(sectors_of_chip(), address as nat, bytes.len()),
                existing,
                bytes,
            ),
        ),
    ensures
        states.last().memory == overlaid(states[from].memory, address as int, bytes),
        states.last().memory.subrange(address as int, address + bytes.len()) == bytes,
{
    let pieces = memory::overlaps_of(sectors_of_chip(), address as nat, bytes.len());
    let commands = write_commands(pieces, existing, bytes);
    lemma_reads_bring_back_what_was_held(
        log,
        states,
        from,
        address,
        bytes,
        existing,
        places,
        pieces.len() as int,
    );
    lemma_history_between(log, states, from, from);
    lemma_history_between(log, states, from, log.len() as int);
    assert(log.take(log.len() as int) =~= log);
    lemma_sent_between(log, from, log.len() as int, commands);
    lemma_write_commands_write(states[from], address, bytes, existing);
    assert(states.last() == states[log.len() as int]);
}

/// A chip has one history: two histories that begin with the same state,
/// the log of the second continuing that of the first, go through the same
/// states as far as the first reaches.
pub proof fn lemma_history_continues(
    log: Seq<Exchange>,
    states: Seq<Chip>,
    longer: Seq<Exchange>,
    later: Seq<Chip>,
    k: int,
)
    requires
        history(log, states),
        history(longer, later),
        extends(log, longer),
        states[0] == later[0],
        0 <= k <= log.len(),
    ensures
        later[k] == states[k],
    decreases k,
{
    if k > 0 {
        lemma_history_continues(log, states, longer, later, k - 1);
        assert(follows(log, states, k - 1));
        assert(follows(longer, later, k - 1));
        assert(longer.take(log.len() as int)[k - 1] == longer[k - 1]);
    }
}

/// Write, then read, on a chip whose reads are true: after a write of
/// `bytes` at `address` the chip answers a read of as many bytes at `address`
/// with `bytes`.
pub proof fn lemma_written_is_read(
    log: Seq<Exchange>,
    states: Seq<Chip>,
    from: int,
    address: u32,
    bytes: Seq<u8>,
    existing: Seq<Seq<u8>>,
    places: Seq<int>,
    buffer: Seq<u8>,
)
    requires
        history(log, states),
        0 <= from <= log.len(),
        address + bytes.len() <= MEMORY_SIZE,
        buffer.len() == bytes.len(),
        brought_back(
            log,
            from,
            memory::overlaps_of(sectors_of_chip(), address as nat, bytes.len()),
            existing,
            places,
            bytes,
            memory::overlaps_of(sectors_of_chip(), address as nat, bytes.len()).len() as int,
        ),
        sent_all_of(
            log.take(from),
            log,
            write_commands(
                memory::overlaps_of(sectors_of_chip(), address as nat, bytes.len()),
                existing,
                bytes,
            ),
        ),
    ensures
        answered(
            states.last(),
            false,
            on_the_bus(Command::Read, Some(address), DataView::Read(buffer)),
        ) == DataView::Read(bytes),
{
    lemma_write_writes(log, states, from, address, bytes, existing, places);
    lemma_history_between(log, states, from, from);
    let held = states.last().memory;
    let answer = Seq::new(
        buffer.len(),
        |i: int|
            if address + i < held.len() {
                held[address + i]
            } else {
                buffer[i]
            },
    );
    assert(answer =~= bytes) by {
        assert forall|i: int| 0 <= i < bytes.len() implies answer[i] == bytes[i] by {
            assert(held.subrange(address as int, address + bytes.len())[i] == held[address + i]);
        }
    }
}

/// Erase, then read, on a chip with a history: after the commands of a
/// bulk erase the whole memory is erased.
pub proof fn lemma_erase_erases(log: Seq<Exchange>, states: Seq<Chip>, from: int)
    requires
        history(log, states),
        0 <= from <= log.len(),
        sent_all_of(log.take(from), log, erase_commands()),
    ensures
        forall|i: int| 0 <= i < MEMORY_SIZE ==> #[trigger] states.last().memory[i] == ERASED,
{
    lemma_history_between(log, states, from, from);
    lemma_history_between(log, states, from, log.len() as int);
    assert(log.take(log.len() as int) =~= log);
    lemma_sent_between(log, from, log.len() as int, erase_commands());
    lemma_erase_commands_erase(states[from]);
    assert(states.last() == states[log.len() as int]);
}

/// The first exchanges of a history, with the states they went through,
/// are a history.
pub proof fn lemma_history_begins(log: Seq<Exchange>, states: Seq<Chip>, k: int)
    requires
        history(log, states),
        0 <= k <= log.len(),
    ensures
        history(log.take(k), states.take(k + 1)),
{
    lemma_history_between(log, states, k, k);
    assert forall|i: int| 0 <= i < k implies #[trigger] follows(
        log.take(k),
        states.take(k + 1),
        i,
    ) by {
        assert(follows(log, states, i));
    }
}

/// A chip whose reads are true holds after the first `k` of its transfers
/// the bytes of these transfers, and everywhere else what it held before the
/// first.
pub proof fn lemma_transfers_write_partly(
    log: Seq<Exchange>,
    states: Seq<Chip>,
    cuts: Seq<int>,
    existing: Seq<Seq<Seq<u8>>>,
    places: Seq<Seq<int>>,
    bytes: Seq<u8>,
    address: u32,
    count: int,
    k: int,
)
    requires
        history(log, states),
        address + bytes.len() <= MEMORY_SIZE,
        transfers_written(log, cuts, existing, places, bytes, address as nat, count),
        0 <= k <= count <= bytes.len() as int / SECTOR_SIZE as int + 1,
    ensures
        0 <= cuts[0] <= cuts[k] <= log.len(),
        states[cuts[k]].memory == overlaid(
            states[cuts[0]].memory,
            address as int,
            bytes.take(transferred(bytes, k)),
        ),
    decreases k,
{
    if k == 0 {
        if count > 0 {
            assert(transfer_written(log, cuts, existing, places, bytes, address as nat, 0));
        }
        lemma_history_between(log, states, cuts[0], cuts[0]);
        assert(states[cuts[0]].memory =~= overlaid(
            states[cuts[0]].memory,
            address as int,
            bytes.take(0),
        ));
    } else {
        let i = k - 1;
        lemma_transfers_write_partly(
            log,
            states,
            cuts,
            existing,
            places,
            bytes,
            address,
            count,
            i,
        );
        assert(transfer_written(log, cuts, existing, places, bytes, address as nat, i));
        let from = cuts[i];
        let to = cuts[k];
        let start = i * SECTOR_SIZE;
        let chunk = transfer(bytes, i);
        lemma_history_begins(log, states, to);
        assert(log.take(to).take(from) =~= log.take(from));
        lemma_write_writes(
            log.take(to),
            states.take(to + 1),
            from,
            (address + start) as u32,
            chunk,
            existing[i],
            places[i],
        );
        assert(states.take(to + 1).last() == states[to]);
        assert(states.take(to + 1)[from] == states[from]);
        crate::hal::flash::lemma_write_piecewise(
            states[cuts[0]].memory,
            address as int,
            bytes,
            start,
            transferred(bytes, k),
        );
    }
}

/// Write from blocks, then read, on a chip whose reads are true: a chip
/// that went through the transfers of bytes that fit into it holds the bytes
/// from `address` on afterwards, and everywhere else what it held before.
pub proof fn lemma_transfers_write(
    log: Seq<Exchange>,
    states: Seq<Chip>,
    cuts: Seq<int>,
    existing: Seq<Seq<Seq<u8>>>,
    places: Seq<Seq<int>>,
    bytes: Seq<u8>,
    address: u32,
)
    requires
        history(log, states),
        address + bytes.len() <= MEMORY_SIZE,
        transfers_written(
            log,
            cuts,
            existing,
            places,
            bytes,
            address as nat,
            bytes.len() as int / SECTOR_SIZE as int + 1,
        ),
    ensures
        0 <= cuts[0] <= cuts.last() <= log.len(),
        states[cuts.last()].memory == overlaid(states[cuts[0]].memory, address as int, bytes),
{
    let count = bytes.len() as int / SECTOR_SIZE as int + 1;
    lemma_transfers_write_partly(
        log,
        states,
        cuts,
        existing,
        places,
        bytes,
        address,
        count,
        count,
    );
    assert(bytes.take(bytes.len() as int) =~= bytes);
}

/// Whether every chip whose reads are true and that went through the
/// exchanges of `log` holds after them `bytes` from `address` on, and
/// everywhere else what it held before exchange number `from`.
pub open spec fn writes(log: Seq<Exchange>, from: int, address: int, bytes: Seq<u8>) -> bool {
    forall|states: Seq<Chip>| #[trigger]
        history(log, states) ==> states.last().memory == overlaid(
            states[from].memory,
            address,
            bytes,
        )
}

/// Whether a memory holds erased bytes only.
pub open spec fn blank(memory: Seq<u8>) -> bool {
    forall|i: int| 0 <= i < memory.len() ==> memory[i] == ERASED
}

/// Whether every chip whose reads are true and that went through the
/// exchanges of `log` holds erased bytes only after them.
pub open spec fn erases(log: Seq<Exchange>) -> bool {
    forall|states: Seq<Chip>| #[trigger] history(log, states) ==> blank(states.last().memory)
}

/// Whether `bytes` are what every chip whose reads are true and that went
/// through the exchanges of `log` held at `address` before exchange number
/// `from`, and still holds.
pub open spec fn reads(log: Seq<Exchange>, from: int, address: int, bytes: Seq<u8>) -> bool {
    forall|states: Seq<Chip>| #[trigger]
        history(log, states) ==> states.last().memory == states[from].memory && bytes
            == states[from].memory.subrange(address, address + bytes.len())
}

/// Reads of the status register before an operation change nothing: the
/// state before them is the state before the operation.
pub proof fn lemma_polls_before(log: Seq<Exchange>, states: Seq<Chip>, from: int, start: int)
    requires
        history(log, states),
        0 <= from <= start <= log.len(),
        sent(log.take(start)) == sent(log.take(from)),
    ensures
        states[start] == states[from],
{
    lemma_sent_between(log, from, start, Seq::<CommandView>::empty());
    lemma_history_between(log, states, from, start);
}

/// A read of the status register and a read of the memory bring back what
/// the chip holds, and leave it as it is.
pub proof fn lemma_read_reads(
    log: Seq<Exchange>,
    states: Seq<Chip>,
    from: int,
    address: u32,
    buffer: Seq<u8>,
    bytes: Seq<u8>,
)
    requires
        history(log, states),
        0 <= from,
        log.len() == from + 2,
        is_poll(log[from].sent),
        log[from + 1].sent == on_the_bus(Command::Read, Some(address), DataView::Read(buffer)),
        log[from + 1].returned == DataView::Read(bytes),
        address + buffer.len() <= MEMORY_SIZE,
    ensures
        states.last() == states[from],
        bytes == states[from].memory.subrange(address as int, address + bytes.len()),
{
    assert(follows(log, states, from));
    assert(follows(log, states, from + 1));
    reveal(obeyed);
    assert(bytes =~= states[from].memory.subrange(address as int, address + buffer.len()));
}

/// Write, then read: what a read brings back from the place that a write
/// went to, with nothing but the read in between, are the bytes written, for
/// every chip whose reads are true.
pub proof fn lemma_read_after_write(
    written: Seq<Exchange>,
    from: int,
    address: int,
    bytes: Seq<u8>,
    log: Seq<Exchange>,
    read: Seq<u8>,
    states: Seq<Chip>,
)
    requires
        0 <= from <= written.len(),
        0 <= address,
        address + bytes.len() <= MEMORY_SIZE,
        writes(written, from, address, bytes),
        extends(written, log),
        reads(log, written.len() as int, address, read),
        read.len() == bytes.len(),
        history(log, states),
    ensures
        read == bytes,
{
    let n = written.len() as int;
    lemma_history_begins(log, states, n);
    lemma_history_between(log, states, from, from);
    let earlier = states.take(n + 1);
    assert(history(written, earlier));
    assert(earlier.last() == states[n]);
    assert(earlier[from] == states[from]);
    crate::hal::flash::lemma_read_after_write(states[from].memory, address, bytes);
}

/// Erase, then read: what a read brings back after an erase, with nothing
/// but the read in between, are erased bytes, for every chip whose reads are
/// true.
pub proof fn lemma_read_after_erase(
    erased: Seq<Exchange>,
    log: Seq<Exchange>,
    address: int,
    read: Seq<u8>,
    states: Seq<Chip>,
)
    requires
        0 <= address,
        address + read.len() <= MEMORY_SIZE,
        erases(erased),
        extends(erased, log),
        reads(log, erased.len() as int, address, read),
        history(log, states),
    ensures
        forall|i: int| 0 <= i < read.len() ==> read[i] == ERASED,
{
    let n = erased.len() as int;
    lemma_history_begins(log, states, n);
    lemma_history_between(log, states, n, n);
    let earlier = states.take(n + 1);
    assert(history(erased, earlier));
    assert(earlier.last() == states[n]);
    assert forall|i: int| 0 <= i < read.len() implies read[i] == ERASED by {
        assert(read[i] == states[n].memory.subrange(address, address + read.len())[i]);
    }
}

/// No erase for a bit subset: a write of bytes that are a bit subset of
/// what the chip holds at the place sends no sector erase, for every chip
/// whose reads are true. `existing` is what the reads of the write brought
/// back, at the places `places` of the log.
pub proof fn lemma_subset_write_sends_no_erase(
    log: Seq<Exchange>,
    states: Seq<Chip>,
    from: int,
    address: u32,
    bytes: Seq<u8>,
    existing: Seq<Seq<u8>>,
    places: Seq<int>,
)
    requires
        history(log, states),
        0 <= from <= log.len(),
        address + bytes.len() <= MEMORY_SIZE,
        brought_back(
            log,
            from,
            memory::overlaps_of(sectors_of_chip(), address as nat, bytes.len()),
            existing,
            places,
            bytes,
            memory::overlaps_of(sectors_of_chip(), address as nat, bytes.len()).len() as int,
        ),
        is_bit_subset(
            bytes,
            states[from].memory.subrange(address as int, address + bytes.len()),
        ),
    ensures
        forall|k: int|
            0 <= k < write_commands(
                memory::overlaps_of(sectors_of_chip(), address as nat, bytes.len()),
                existing,
                bytes,
            ).len() ==> (#[trigger] write_commands(
                memory::overlaps_of(sectors_of_chip(), address as nat, bytes.len()),
                existing,
                bytes,
            )[k]).instruction != Some(Command::SectorErase.spec_opcode()),
{
    let bounds = sectors_of_chip();
    let pieces = memory::overlaps_of(bounds, address as nat, bytes.len());
    let held = states[from].memory;
    lemma_history_between(log, states, from, from);
    lemma_reads_bring_back_what_was_held(
        log,
        states,
        from,
        address,
        bytes,
        existing,
        places,
        pieces.len() as int,
    );
    memory::lemma_overlaps_fit(bounds, address as nat, bytes.len());
    assert forall|i: int| 0 <= i < pieces.len() implies !#[trigger] piece_needs_erase(
        pieces,
        existing,
        bytes,
        i,
    ) by {
        let piece = pieces[i];
        let location = (BASE_ADDRESS + piece.block * SECTOR_SIZE) as nat;
        assert(memory::fits(piece, bounds, address as nat));
        assert(bounds[piece.block as int].0 == location);
        let chunk = bytes.subrange(piece.start as int, piece.end as int);
        let there = existing[i].skip(piece.address - location);
        assert forall|j: int| 0 <= j < chunk.len() implies byte_is_subset(
            #[trigger] chunk[j],
            there[j],
        ) by {
            assert(there[j] == held[piece.address + j]);
            assert(held.subrange(address as int, address + bytes.len())[piece.start + j]
                == held[piece.address + j]);
            assert(chunk[j] == bytes[piece.start + j]);
        }
    }
    lemma_subset_writes_never_erase(pieces, existing, bytes);
}

} // verus!
