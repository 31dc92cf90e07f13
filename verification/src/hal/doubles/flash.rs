//! Flash memories for tests: a flash controller that keeps its memory in
//! RAM, and a flash that reads and writes without more ado.
use crate::hal::flash::CommandExecutor;
use crate::hal::flash::ERASED;
use crate::hal::flash::ReadWrite;
use crate::hal::flash::cut_into;
use crate::hal::flash::erased;
use crate::hal::flash::flattened;
use crate::hal::flash::overlaid;
use crate::hal::flash::transfers;
use crate::utilities::memory;
use vstd::prelude::*;

verus! {

/// A flash controller whose flash is a vector of bytes. After each
/// operation it is busy for `latency` polls. Programming clears bits and sets
/// none, as in NOR flash. A test can have the next operation fail.
pub struct FakeController<F> {
    pub memory: Vec<u8>,
    /// Number of bytes in a block.
    pub block_size: usize,
    /// Number of polls that find the controller busy after an operation.
    pub latency: usize,
    /// Number of polls that will still find the controller busy.
    pub busy_polls: usize,
    /// The fault flag.
    pub fault: Option<F>,
    /// Whether operations of this controller can fail.
    pub faulty: bool,
    /// The fault that the next operation fails with, if it is to fail.
    pub next_fault: Option<F>,
}

impl<F: Copy> FakeController<F> {
    /// An erased flash of `blocks` blocks of `block_size` bytes, behind a
    /// controller that never fails.
    pub fn new(blocks: usize, block_size: usize, latency: usize) -> (controller: Self)
        requires
            block_size > 0,
            blocks * block_size <= u32::MAX,
        ensures
            controller.inv(),
            controller.reliable(),
            controller.pending() == 0,
            controller.block_size() == block_size,
            controller.latency == latency,
            controller.memory().len() == blocks * block_size,
            forall|i: int| 0 <= i < controller.memory().len() ==> controller.memory()[i] == ERASED,
    {
        let mut memory: Vec<u8> = Vec::new();
        let mut block: usize = 0;
        assert(0 * block_size == 0) by (nonlinear_arith);
        while block < blocks
            invariant
                block <= blocks,
                blocks * block_size <= u32::MAX,
                memory@.len() == block * block_size,
                forall|i: int| 0 <= i < memory@.len() ==> memory@[i] == ERASED,
            decreases blocks - block,
        {
            let mut i: usize = 0;
            proof {
                assert((block + 1) * block_size == block * block_size + block_size)
                    by (nonlinear_arith);
                assert((block + 1) * block_size <= blocks * block_size) by (nonlinear_arith)
                    requires
                        block < blocks,
                ;
            }
            while i < block_size
                invariant
                    i <= block_size,
                    memory@.len() == block * block_size + i,
                    block * block_size + block_size <= u32::MAX,
                    forall|j: int| 0 <= j < memory@.len() ==> memory@[j] == ERASED,
                decreases block_size - i,
            {
                memory.push(ERASED);
                i += 1;
            }
            block += 1;
        }
        FakeController {
            memory,
            block_size,
            latency,
            busy_polls: 0,
            fault: None,
            faulty: false,
            next_fault: None,
        }
    }
}

impl<F: Copy> CommandExecutor for FakeController<F> {
    type Fault = F;

    open spec fn inv(&self) -> bool {
        &&& self.memory@.len() <= u32::MAX
        &&& !self.faulty ==> self.fault is None && self.next_fault is None
    }

    open spec fn memory(&self) -> Seq<u8> {
        self.memory@
    }

    open spec fn block_size(&self) -> nat {
        self.block_size as nat
    }

    open spec fn pending(&self) -> nat {
        self.busy_polls as nat
    }

    open spec fn fault(&self) -> Option<F> {
        self.fault
    }

    open spec fn reliable(&self) -> bool {
        !self.faulty
    }

    fn is_busy(&mut self) -> (busy: bool) {
        if self.busy_polls > 0 {
            self.busy_polls -= 1;
            true
        } else {
            false
        }
    }

    fn erase_block(&mut self, address: u32)
        ensures
            final(self).pending() == old(self).latency,
            final(self).latency == old(self).latency,
    {
        self.busy_polls = self.latency;
        match self.next_fault {
            Some(fault) => {
                self.fault = Some(fault);
                self.next_fault = None;
            },
            None => {
                let ghost before = self.memory@;
                let start = address as usize;
                let mut i: usize = 0;
                while i < self.block_size
                    invariant
                        i <= self.block_size,
                        start == address,
                        start + self.block_size <= before.len(),
                        self.memory@.len() == before.len(),
                        before.len() <= u32::MAX,
                        self.block_size == old(self).block_size,
                        self.latency == old(self).latency,
                        self.busy_polls == old(self).latency,
                        self.faulty == old(self).faulty,
                        self.fault == old(self).fault,
                        self.next_fault is None,
                        forall|j: int|
                            0 <= j < before.len() ==> self.memory@[j] == if start <= j < start + i {
                                ERASED
                            } else {
                                before[j]
                            },
                    decreases self.block_size - i,
                {
                    self.memory[start + i] = ERASED;
                    i += 1;
                }
                assert(self.memory@ =~= erased(before, address as int, address + self.block_size));
            },
        }
    }

    fn program_word(&mut self, address: u32, word: &[u8; 4])
        ensures
            final(self).pending() == old(self).latency,
            final(self).latency == old(self).latency,
    {
        self.busy_polls = self.latency;
        match self.next_fault {
            Some(fault) => {
                self.fault = Some(fault);
                self.next_fault = None;
            },
            None => {
                let ghost before = self.memory@;
                let start = address as usize;
                let mut i: usize = 0;
                while i < 4
                    invariant
                        i <= 4,
                        start == address,
                        start + 4 <= before.len(),
                        self.memory@.len() == before.len(),
                        before.len() <= u32::MAX,
                        self.block_size == old(self).block_size,
                        self.latency == old(self).latency,
                        self.busy_polls == old(self).latency,
                        self.faulty == old(self).faulty,
                        self.fault == old(self).fault,
                        self.next_fault is None,
                        forall|j: int|
                            0 <= j < before.len() ==> self.memory@[j] == if start <= j < start + i {
                                before[j] & word@[j - start]
                            } else {
                                before[j]
                            },
                    decreases 4 - i,
                {
                    let held = self.memory[start + i];
                    self.memory[start + i] = held & word[i];
                    i += 1;
                }
                assert forall|k: int| 0 <= k < 4 && before[address + k] == ERASED
                    implies #[trigger] self.memory@[address + k] == word@[k] by {
                    let programmed = word@[k];
                    assert(0xFFu8 & programmed == programmed) by (bit_vector);
                }
            },
        }
    }

    fn erase_all(&mut self)
        ensures
            final(self).pending() == old(self).latency,
            final(self).latency == old(self).latency,
    {
        self.busy_polls = self.latency;
        match self.next_fault {
            Some(fault) => {
                self.fault = Some(fault);
                self.next_fault = None;
            },
            None => {
                let ghost before = self.memory@;
                let mut i: usize = 0;
                while i < self.memory.len()
                    invariant
                        i <= before.len(),
                        self.memory@.len() == before.len(),
                        before.len() <= u32::MAX,
                        self.block_size == old(self).block_size,
                        self.latency == old(self).latency,
                        self.busy_polls == old(self).latency,
                        self.faulty == old(self).faulty,
                        self.fault == old(self).fault,
                        self.next_fault is None,
                        forall|j: int|
                            0 <= j < before.len() ==> self.memory@[j] == if j < i {
                                ERASED
                            } else {
                                before[j]
                            },
                    decreases before.len() - i,
                {
                    self.memory[i] = ERASED;
                    i += 1;
                }
                assert(self.memory@ =~= erased(before, 0, before.len() as int));
            },
        }
    }

    fn take_fault(&mut self) -> (fault: Option<F>) {
        let fault = self.fault;
        self.fault = None;
        fault
    }

    fn read(&self, address: u32, bytes: &mut [u8]) {
        let start = address as usize;
        let mut i: usize = 0;
        while i < bytes.len()
            invariant
                i <= bytes@.len(),
                bytes@.len() == old(bytes)@.len(),
                start == address,
                start + bytes@.len() <= self.memory@.len(),
                self.memory@.len() <= u32::MAX,
                forall|j: int| 0 <= j < i ==> bytes@[j] == self.memory@[start + j],
            decreases bytes@.len() - i,
        {
            bytes[i] = self.memory[start + i];
            i += 1;
        }
        assert(bytes@ =~= self.memory@.subrange(address as int, address + bytes@.len()));
    }
}

/// Address into a `FakeFlash`.
#[derive(Default, Copy, Clone, Debug, PartialOrd, PartialEq, Eq, Ord, Structural)]
pub struct Address(pub u32);

impl memory::Address for Address {
    open spec fn spec_offset(self) -> nat {
        self.0 as nat
    }

    fn offset(self) -> (offset: u32) {
        self.0
    }

    fn forward(self, distance: usize) -> (address: Address) {
        Address(self.0 + distance as u32)
    }
}

/// Bytes in a page of a `FakeFlash`.
pub const PAGE_SIZE: usize = 256;

/// Bytes in a sector of a `FakeFlash`.
pub const SECTOR_SIZE: usize = 65536;

/// Sectors of a `FakeFlash`.
pub const NUMBER_OF_SECTORS: usize = 16;

/// Bytes in a `FakeFlash`.
pub const MEMORY_SIZE: usize = 1048576;

/// What can go wrong with a `FakeFlash`.
#[derive(Copy, Clone, Debug, PartialEq, Eq, Structural)]
pub enum FakeError {
    AddressOutOfRange,
}

/// A flash of sixteen sectors that is never busy and never fails. It
/// starts out erased, and holds what was last written to it.
pub struct FakeFlash {
    base: Address,
    memory: Vec<u8>,
}

impl FakeFlash {
    /// Address of the first byte of the flash.
    pub closed spec fn base(&self) -> Address {
        self.base
    }

    /// The bytes of the flash, from its first address on.
    pub closed spec fn memory(&self) -> Seq<u8> {
        self.memory@
    }

    /// Whether `len` bytes at `address` all lie in the flash.
    pub open spec fn reachable(&self, address: Address, len: nat) -> bool {
        self.base().0 <= address.0 && address.0 + len <= self.base().0 + MEMORY_SIZE
    }

    /// An erased flash whose first byte has the address `base`.
    pub fn new(base: Address) -> (flash: FakeFlash)
        requires
            base.0 + MEMORY_SIZE <= u32::MAX,
        ensures
            flash.inv(),
            flash.base() == base,
            flash.memory().len() == MEMORY_SIZE,
            forall|i: int| 0 <= i < MEMORY_SIZE ==> flash.memory()[i] == ERASED,
    {
        let mut memory: Vec<u8> = Vec::new();
        let mut i: usize = 0;
        while i < MEMORY_SIZE
            invariant
                i <= MEMORY_SIZE,
                memory@.len() == i,
                forall|j: int| 0 <= j < i ==> memory@[j] == ERASED,
            decreases MEMORY_SIZE - i,
        {
            memory.push(ERASED);
            i += 1;
        }
        FakeFlash { base, memory }
    }
}

impl ReadWrite for FakeFlash {
    type Error = FakeError;

    type Address = Address;

    closed spec fn inv(&self) -> bool {
        &&& self.memory@.len() == MEMORY_SIZE
        &&& self.base.0 + MEMORY_SIZE <= u32::MAX
    }

    open spec fn patience(&self) -> nat {
        0
    }

    open spec fn contents(&self) -> Option<(nat, Seq<u8>)> {
        Some((self.base().0 as nat, self.memory()))
    }

    open spec fn transfer_size() -> nat {
        SECTOR_SIZE as nat
    }

    fn label() -> (label: &'static str)
        ensures
            label == "Fake flash",
    {
        "Fake flash"
    }

    fn read(&mut self, address: Address, bytes: &mut [u8]) -> (result: Result<
        (),
        nb::Error<FakeError>,
    >)
        ensures
            final(self).memory() == old(self).memory(),
            final(self).base() == old(self).base(),
            result is Ok == old(self).reachable(address, old(bytes)@.len()),
            match result {
                Ok(()) => final(bytes)@ == old(self).memory().subrange(
                    address.0 - old(self).base().0,
                    address.0 - old(self).base().0 + old(bytes)@.len(),
                ),
                Err(error) => {
                    &&& error == nb::Error::Other(FakeError::AddressOutOfRange)
                    &&& final(bytes)@ == old(bytes)@
                },
            },
    {
        if address.0 < self.base.0 || bytes.len() > MEMORY_SIZE || (address.0 - self.base.0) as usize
            > MEMORY_SIZE - bytes.len() {
            return Err(nb::Error::Other(FakeError::AddressOutOfRange));
        }
        let start = (address.0 - self.base.0) as usize;
        let mut i: usize = 0;
        while i < bytes.len()
            invariant
                i <= bytes@.len(),
                bytes@.len() == old(bytes)@.len(),
                start + bytes@.len() <= self.memory@.len(),
                self.memory@.len() == MEMORY_SIZE,
                forall|j: int| 0 <= j < i ==> bytes@[j] == self.memory@[start + j],
            decreases bytes@.len() - i,
        {
            bytes[i] = self.memory[start + i];
            i += 1;
        }
        assert(bytes@ =~= self.memory@.subrange(start as int, start + bytes@.len()));
        Ok(())
    }

    fn write(&mut self, address: Address, bytes: &[u8]) -> (result: Result<
        (),
        nb::Error<FakeError>,
    >)
        ensures
            final(self).base() == old(self).base(),
            result is Ok == old(self).reachable(address, bytes@.len()),
            match result {
                Ok(()) => final(self).memory() == overlaid(
                    old(self).memory(),
                    address.0 - old(self).base().0,
                    bytes@,
                ),
                Err(error) => {
                    &&& error == nb::Error::Other(FakeError::AddressOutOfRange)
                    &&& final(self).memory() == old(self).memory()
                },
            },
    {
        if address.0 < self.base.0 || bytes.len() > MEMORY_SIZE || (address.0 - self.base.0) as usize
            > MEMORY_SIZE - bytes.len() {
            return Err(nb::Error::Other(FakeError::AddressOutOfRange));
        }
        let ghost before = self.memory@;
        let start = (address.0 - self.base.0) as usize;
        let mut i: usize = 0;
        while i < bytes.len()
            invariant
                i <= bytes@.len(),
                start + bytes@.len() <= MEMORY_SIZE,
                self.memory@.len() == MEMORY_SIZE,
                before.len() == MEMORY_SIZE,
                self.base == old(self).base,
                forall|j: int|
                    0 <= j < MEMORY_SIZE ==> self.memory@[j] == if start <= j < start + i {
                        bytes@[j - start]
                    } else {
                        before[j]
                    },
            decreases bytes@.len() - i,
        {
            self.memory[start + i] = bytes[i];
            i += 1;
        }
        assert(self.memory@ =~= overlaid(before, start as int, bytes@));
        Ok(())
    }

    fn range(&self) -> (range: (Address, Address))
        ensures
            self.inv() ==> range.0 == self.base() && range.1.0 == self.base().0 + MEMORY_SIZE,
    {
        let end = if self.base.0 <= 0xFFFF_FFFF - MEMORY_SIZE as u32 {
            self.base.0 + MEMORY_SIZE as u32
        } else {
            0xFFFF_FFFF
        };
        (self.base, Address(end))
    }

    fn erase(&mut self) -> (result: Result<(), nb::Error<FakeError>>)
        ensures
            result is Ok,
            final(self).base() == old(self).base(),
            final(self).memory() == erased(old(self).memory(), 0, MEMORY_SIZE as int),
    {
        let ghost before = self.memory@;
        let mut i: usize = 0;
        while i < MEMORY_SIZE
            invariant
                i <= MEMORY_SIZE,
                self.memory@.len() == MEMORY_SIZE,
                self.base == old(self).base,
                forall|j: int| 0 <= j < i ==> self.memory@[j] == ERASED,
            decreases MEMORY_SIZE - i,
        {
            self.memory[i] = ERASED;
            i += 1;
        }
        assert(self.memory@ =~= erased(before, 0, MEMORY_SIZE as int));
        Ok(())
    }

    fn write_from_blocks<const N: usize>(&mut self, address: Address, blocks: &[[u8; N]]) -> (result:
        Result<(), FakeError>)
        ensures
            final(self).base() == old(self).base(),
            old(self).reachable(address, (blocks@.len() * N) as nat) ==> result is Ok,
            match result {
                Ok(()) => final(self).memory() == overlaid(
                    old(self).memory(),
                    address.0 - old(self).base().0,
                    flattened(blocks@),
                ),
                Err(error) => error == FakeError::AddressOutOfRange,
            },
    {
        let ghost before = self.memory@;
        let ghost bytes = flattened(blocks@);
        let ghost start = address.0 - self.base.0;
        let chunks = transfers(blocks, SECTOR_SIZE);
        let mut offset: usize = 0;
        let mut c: usize = 0;
        proof {
            assert(bytes.take(0) =~= Seq::<u8>::empty());
            assert(before =~= overlaid(before, start, bytes.take(0)));
        }
        while c < chunks.len()
            invariant
                self.inv(),
                self.base == old(self).base,
                before == old(self).memory@,
                start == address.0 - self.base.0,
                c <= chunks@.len(),
                bytes == flattened(blocks@),
                bytes.len() == blocks@.len() * N,
                address.0 + bytes.len() <= u32::MAX,
                cut_into(chunks@, bytes, SECTOR_SIZE as nat),
                c < chunks@.len() ==> offset == c * SECTOR_SIZE,
                c == chunks@.len() ==> offset == bytes.len(),
                offset <= bytes.len(),
                self.memory@ == overlaid(before, start, bytes.take(offset as int)),
            decreases chunks@.len() - c,
        {
            let chunk = chunks[c].as_slice();
            proof {
                if c < chunks@.len() - 1 {
                    assert(chunk@ == bytes.subrange(
                        c * SECTOR_SIZE,
                        c * SECTOR_SIZE + SECTOR_SIZE as nat,
                    ));
                }
                assert(chunk@ == bytes.subrange(offset as int, offset + chunk@.len()));
            }
            match self.write(Address(address.0 + offset as u32), chunk) {
                Ok(()) => {},
                Err(_) => {
                    return Err(FakeError::AddressOutOfRange);
                },
            }
            proof {
                crate::hal::flash::lemma_write_piecewise(
                    before,
                    start,
                    bytes,
                    offset as int,
                    offset + chunk@.len(),
                );
            }
            offset += chunk.len();
            c += 1;
        }
        proof {
            assert(bytes.take(bytes.len() as int) =~= bytes);
        }
        Ok(())
    }
}

} // verus!
