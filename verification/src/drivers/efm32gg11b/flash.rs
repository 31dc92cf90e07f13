//! Internal flash controller for the EFM32GG11B.
use crate::hal::flash::CommandExecutor;
use crate::hal::flash::ERASED;
use crate::hal::flash::ReadWrite;
use crate::hal::flash::cut_into;
use crate::hal::flash::erased;
use crate::hal::flash::flattened;
use crate::hal::flash::lemma_stopped_before;
use crate::hal::flash::lemma_transfer_stopped;
use crate::hal::flash::lemma_write_piecewise;
use crate::hal::flash::overlaid;
use crate::hal::flash::program_words;
use crate::hal::flash::same_outside;
use crate::hal::flash::stopped_in;
use crate::hal::flash::transfers;
use crate::hal::flash::wait_until_not_busy;
use crate::hal::flash::written_up_to_a_block;
use crate::utilities::memory;
use crate::utilities::memory::Region;
use vstd::prelude::*;
use vstd::slice::slice_subrange;
use vstd::std_specs::convert::IntoSpecImpl;
use vstd::std_specs::ops::AddSpecImpl;
use vstd::std_specs::ops::SubSpecImpl;

verus! {

/// Bytes in a page, the unit of erasure.
pub const PAGE_SIZE: usize = 4096;

pub const PAGE_COUNT: usize = 512;

/// Bytes in the flash.
pub const MEMORY_SIZE: usize = 2097152;

/// Bytes that `write_from_blocks` gathers before it writes them.
pub const TRANSFER_SIZE: usize = 4096;

/// How the size of the flash follows from its pages.
pub proof fn lemma_geometry()
    ensures
        MEMORY_SIZE == PAGE_SIZE * PAGE_COUNT,
{
}

/// What can go wrong with the flash.
#[derive(Copy, Clone, Debug, PartialEq, Eq, Structural)]
pub enum FlashError {
    MemoryNotReachable,
    MemoryIsLocked,
    InvalidAddress,
    MisalignedAccess,
}

/// What the controller of the flash reports when it turns an operation
/// down.
#[derive(Copy, Clone, Debug, PartialEq, Eq, Structural)]
pub enum Fault {
    /// The address of the operation is not one of the flash.
    InvalidAddress,
    /// The flash is locked against writing.
    Locked,
}

/// Address into the flash.
#[derive(Default, Copy, Clone, Debug, PartialOrd, PartialEq, Eq, Ord, Structural)]
pub struct Address(pub u32);

impl core::ops::Add<usize> for Address {
    type Output = Address;

    /// The address `rhs` bytes further on.
    fn add(self, rhs: usize) -> (sum: Address) {
        Address(self.0 + rhs as u32)
    }
}

impl AddSpecImpl<usize> for Address {
    open spec fn obeys_add_spec() -> bool {
        true
    }

    open spec fn add_req(self, rhs: usize) -> bool {
        self.0 + rhs <= u32::MAX
    }

    open spec fn add_spec(self, rhs: usize) -> Address {
        Address((self.0 + rhs) as u32)
    }
}

impl core::ops::Sub<usize> for Address {
    type Output = Address;

    /// The address `rhs` bytes back, or the first address where there are
    /// not that many before this one.
    fn sub(self, rhs: usize) -> (difference: Address) {
        if rhs >= self.0 as usize {
            Address(0)
        } else {
            Address(self.0 - rhs as u32)
        }
    }
}

impl SubSpecImpl<usize> for Address {
    open spec fn obeys_sub_spec() -> bool {
        true
    }

    open spec fn sub_req(self, rhs: usize) -> bool {
        true
    }

    open spec fn sub_spec(self, rhs: usize) -> Address {
        if rhs >= self.0 {
            Address(0)
        } else {
            Address((self.0 - rhs) as u32)
        }
    }
}

impl core::ops::Sub<Address> for Address {
    type Output = usize;

    /// The number of bytes from `rhs` up to this address, or zero where
    /// `rhs` lies behind it.
    fn sub(self, rhs: Address) -> (distance: usize) {
        if rhs.0 >= self.0 {
            0
        } else {
            (self.0 - rhs.0) as usize
        }
    }
}

impl SubSpecImpl<Address> for Address {
    open spec fn obeys_sub_spec() -> bool {
        true
    }

    open spec fn sub_req(self, rhs: Address) -> bool {
        true
    }

    open spec fn sub_spec(self, rhs: Address) -> usize {
        if rhs.0 >= self.0 {
            0
        } else {
            (self.0 - rhs.0) as usize
        }
    }
}

impl Into<usize> for Address {
    fn into(self) -> (value: usize) {
        self.0 as usize
    }
}

impl IntoSpecImpl<usize> for Address {
    open spec fn obeys_into_spec() -> bool {
        true
    }

    open spec fn into_spec(self) -> usize {
        self.0 as usize
    }
}

impl memory::Address for Address {
    open spec fn spec_offset(self) -> nat {
        self.0 as nat
    }

    fn offset(self) -> (offset: u32) {
        self.0
    }

    fn forward(self, distance: usize) -> (address: Address) {
        Address(self.0 + distance as u32)
    }
}

/// The pages of the flash.
#[derive(Copy, Clone, Debug)]
pub struct PageMap;

/// A page of the flash, or of what would lie behind it.
#[derive(Copy, Clone, Debug)]
pub struct Page(pub u16);

impl PageMap {
    /// Every page of the flash, by ascending address.
    pub fn pages() -> (pages: Vec<Page>)
        ensures
            pages@.len() == PAGE_COUNT,
            pages@.len() == MEMORY_SIZE / PAGE_SIZE,
            forall|i: int| 0 <= i < pages@.len() ==> (#[trigger] pages@[i]).0 == i,
    {
        let mut pages: Vec<Page> = Vec::new();
        let mut index: u16 = 0;
        while index < 512
            invariant
                index <= PAGE_COUNT,
                pages@.len() == index,
                forall|i: int| 0 <= i < index ==> (#[trigger] pages@[i]).0 == i,
            decreases PAGE_COUNT - index,
        {
            pages.push(Page(index));
            index += 1;
        }
        pages
    }
}

impl Page {
    /// Address of the first byte of the page.
    pub fn address(&self) -> (address: Address)
        ensures
            address.0 == self.spec_location(),
    {
        Address(self.0 as u32 * 4096)
    }
}

impl memory::Region<Address> for PageMap {
    open spec fn spec_location(&self) -> nat {
        0
    }

    open spec fn spec_end(&self) -> nat {
        MEMORY_SIZE as nat
    }

    fn span(&self) -> (span: (u32, u32)) {
        (0, MEMORY_SIZE as u32)
    }

    fn contains(&self, address: Address) -> (inside: bool) {
        address.0 < MEMORY_SIZE as u32
    }
}

impl memory::Region<Address> for Page {
    open spec fn spec_location(&self) -> nat {
        (self.0 * PAGE_SIZE) as nat
    }

    open spec fn spec_end(&self) -> nat {
        ((self.0 + 1) * PAGE_SIZE) as nat
    }

    fn span(&self) -> (span: (u32, u32)) {
        let start = self.address().0;
        (start, start + PAGE_SIZE as u32)
    }

    fn contains(&self, address: Address) -> (inside: bool) {
        let start = self.address().0;
        address.0 >= start && address.0 < start + PAGE_SIZE as u32
    }
}

/// No address lies in two pages.
pub proof fn lemma_pages_do_not_overlap(a: Page, b: Page, address: Address)
    requires
        a.0 != b.0,
    ensures
        !(memory::covers(&a, address) && memory::covers(&b, address)),
{
}

/// Bounds of the pages of the flash, in order.
pub open spec fn pages_of_flash() -> Seq<(nat, nat)> {
    Seq::new(
        PAGE_COUNT as nat,
        |k: int| ((k * PAGE_SIZE) as nat, ((k + 1) * PAGE_SIZE) as nat),
    )
}

/// The pages cover the flash without a gap.
pub proof fn lemma_pages_are_contiguous()
    ensures
        memory::contiguous(pages_of_flash()),
        pages_of_flash()[0].0 == 0,
        pages_of_flash().last().1 == MEMORY_SIZE,
{
    let spans = pages_of_flash();
    assert forall|k: int| 0 < k < spans.len() implies #[trigger] memory::adjoins(spans, k) by {}
}

/// Position of the first byte of the page that holds position `i`.
pub open spec fn page_start(i: int) -> int {
    (i / PAGE_SIZE as int) * PAGE_SIZE
}

/// Whether the page that holds position `i` holds a byte of the `len`
/// bytes from `address` on.
pub open spec fn in_touched_page(i: int, address: int, len: int) -> bool {
    page_start(i) < address + len && address < page_start(i) + PAGE_SIZE
}

/// Whether two memories hold the same in every page that holds none of the
/// `len` bytes from `address` on.
pub open spec fn same_in_other_pages(before: Seq<u8>, after: Seq<u8>, address: int, len: int) -> bool {
    &&& after.len() == before.len()
    &&& forall|i: int|
        0 <= i < before.len() && !in_touched_page(i, address, len) ==> after[i] == before[i]
}

/// A position lies in the page that starts at its page start, and in no
/// other.
pub proof fn lemma_page_start(i: int, page: int)
    requires
        0 <= i,
    ensures
        page_start(i) <= i < page_start(i) + PAGE_SIZE,
        (page * PAGE_SIZE <= i < (page + 1) * PAGE_SIZE) == (page_start(i) == page * PAGE_SIZE),
{
}

/// Whether `len` bytes from `address` on can be written: address and
/// length are multiples of four.
pub open spec fn aligned(address: Address, len: nat) -> bool {
    address.0 % 4 == 0 && len % 4 == 0
}

/// Whether `len` bytes at `address` can be read: they all lie in the
/// flash.
pub open spec fn reachable(address: Address, len: nat) -> bool {
    address.0 + len <= MEMORY_SIZE
}

/// The error that the driver reports for a fault of the controller.
pub open spec fn reported(fault: Fault) -> FlashError {
    match fault {
        Fault::InvalidAddress => FlashError::InvalidAddress,
        Fault::Locked => FlashError::MemoryIsLocked,
    }
}

/// Driver of the flash, over the controller of the flash.
pub struct Flash<X: CommandExecutor<Fault = Fault>> {
    pub msc: X,
}

impl<X: CommandExecutor<Fault = Fault>> Flash<X> {
    /// A driver for the flash behind `msc`, which has the pages of this
    /// chip.
    pub fn new(msc: X) -> (flash: Self)
        requires
            msc.inv(),
            msc.block_size() == PAGE_SIZE,
            msc.memory().len() == MEMORY_SIZE,
        ensures
            flash.inv(),
            flash.msc == msc,
    {
        Flash { msc }
    }

    /// Looks at the fault flag of the controller, and clears it.
    pub fn verify_status(&mut self) -> (result: Result<(), nb::Error<FlashError>>)
        requires
            old(self).inv(),
        ensures
            final(self).inv(),
            final(self).msc.reliable() == old(self).msc.reliable(),
            final(self).msc.pending() == old(self).msc.pending(),
            final(self).msc.memory() == old(self).msc.memory(),
            final(self).msc.fault() is None,
            match old(self).msc.fault() {
                Some(fault) => result == Err::<(), nb::Error<FlashError>>(
                    nb::Error::Other(reported(fault)),
                ),
                None => result is Ok,
            },
    {
        match self.msc.take_fault() {
            Some(Fault::InvalidAddress) => Err(nb::Error::Other(FlashError::InvalidAddress)),
            Some(Fault::Locked) => Err(nb::Error::Other(FlashError::MemoryIsLocked)),
            None => Ok(()),
        }
    }

    /// Erases one page and waits until the controller has done so.
    pub fn erase_page(&mut self, page: Page) -> (result: Result<(), nb::Error<FlashError>>)
        requires
            old(self).inv(),
            page.0 < PAGE_COUNT,
        ensures
            final(self).inv(),
            final(self).msc.reliable() == old(self).msc.reliable(),
            (result is Err && result->Err_0 is WouldBlock) == (old(self).msc.pending() > 0),
            old(self).msc.reliable() && old(self).msc.pending() == 0 ==> result is Ok,
            !(result is Err && result->Err_0 is WouldBlock) ==> final(self).msc.fault() is None,
            match result {
                Ok(()) => {
                    &&& final(self).msc.pending() == 0
                    &&& final(self).msc.memory() == erased(
                        old(self).msc.memory(),
                        page.spec_location() as int,
                        page.spec_end() as int,
                    )
                },
                Err(nb::Error::WouldBlock) => {
                    &&& final(self).msc.pending() < old(self).msc.pending()
                    &&& final(self).msc.memory() == old(self).msc.memory()
                },
                Err(nb::Error::Other(FlashError::InvalidAddress))
                | Err(nb::Error::Other(FlashError::MemoryIsLocked)) => {
                    &&& final(self).msc.pending() == 0
                    &&& same_outside(
                        old(self).msc.memory(),
                        final(self).msc.memory(),
                        page.spec_location() as int,
                        page.spec_end() as int,
                    )
                },
                Err(nb::Error::Other(_)) => false,
            },
    {
        if self.msc.is_busy() {
            return Err(nb::Error::WouldBlock);
        }
        let address = page.address();
        self.msc.erase_block(address.0);
        wait_until_not_busy(&mut self.msc);
        self.verify_status()
    }

    /// Programs a page with `bytes`, which have to be as many as the page
    /// holds, word by word, and waits until the controller has done so. The
    /// page has to be erased.
    pub fn write_page(&mut self, bytes: &[u8], page: Page) -> (result: Result<
        (),
        nb::Error<FlashError>,
    >)
        requires
            old(self).inv(),
            page.0 < PAGE_COUNT,
        ensures
            final(self).inv(),
            final(self).msc.reliable() == old(self).msc.reliable(),
            (result == Err::<(), nb::Error<FlashError>>(
                nb::Error::Other(FlashError::MisalignedAccess),
            )) == (bytes@.len() != PAGE_SIZE),
            (result is Err && result->Err_0 is WouldBlock) == (bytes@.len() == PAGE_SIZE && old(
                self,
            ).msc.pending() > 0),
            old(self).msc.reliable() && old(self).msc.pending() == 0 && bytes@.len() == PAGE_SIZE
                ==> result is Ok,
            match result {
                Ok(()) => {
                    &&& final(self).msc.pending() == 0
                    &&& same_outside(
                        old(self).msc.memory(),
                        final(self).msc.memory(),
                        page.spec_location() as int,
                        page.spec_end() as int,
                    )
                    &&& (forall|i: int|
                        page.spec_location() <= i < page.spec_end() ==> old(self).msc.memory()[i]
                            == ERASED) ==> final(self).msc.memory() == overlaid(
                        old(self).msc.memory(),
                        page.spec_location() as int,
                        bytes@,
                    )
                },
                Err(nb::Error::WouldBlock) => {
                    &&& final(self).msc.pending() < old(self).msc.pending()
                    &&& final(self).msc.memory() == old(self).msc.memory()
                },
                Err(nb::Error::Other(FlashError::MisalignedAccess)) => {
                    &&& final(self).msc.pending() == old(self).msc.pending()
                    &&& final(self).msc.memory() == old(self).msc.memory()
                },
                Err(nb::Error::Other(FlashError::InvalidAddress))
                | Err(nb::Error::Other(FlashError::MemoryIsLocked)) => {
                    &&& final(self).msc.pending() == 0
                    &&& same_outside(
                        old(self).msc.memory(),
                        final(self).msc.memory(),
                        page.spec_location() as int,
                        page.spec_end() as int,
                    )
                },
                Err(nb::Error::Other(_)) => false,
            },
    {
        if bytes.len() != PAGE_SIZE {
            return Err(nb::Error::Other(FlashError::MisalignedAccess));
        }
        if self.msc.is_busy() {
            return Err(nb::Error::WouldBlock);
        }
        program_words(&mut self.msc, page.address().0, bytes);
        self.verify_status()
    }

    /// `erase_page`, tried again for as long as the controller is busy.
    pub fn block_erase_page(&mut self, page: Page) -> (result: Result<(), FlashError>)
        requires
            old(self).inv(),
            page.0 < PAGE_COUNT,
        ensures
            final(self).inv(),
            final(self).msc.reliable() == old(self).msc.reliable(),
            final(self).msc.pending() == 0,
            old(self).msc.reliable() ==> result is Ok,
            match result {
                Ok(()) => final(self).msc.memory() == erased(
                    old(self).msc.memory(),
                    page.spec_location() as int,
                    page.spec_end() as int,
                ),
                Err(FlashError::InvalidAddress) | Err(FlashError::MemoryIsLocked) => same_outside(
                    old(self).msc.memory(),
                    final(self).msc.memory(),
                    page.spec_location() as int,
                    page.spec_end() as int,
                ),
                Err(_) => false,
            },
    {
        loop
            invariant
                self.inv(),
                page.0 < PAGE_COUNT,
                self.msc.reliable() == old(self).msc.reliable(),
                self.msc.memory() == old(self).msc.memory(),
            decreases self.msc.pending(),
        {
            match self.erase_page(page) {
                Ok(()) => {
                    return Ok(());
                },
                Err(nb::Error::WouldBlock) => {},
                Err(nb::Error::Other(error)) => {
                    return Err(error);
                },
            }
        }
    }

    /// `write_page`, tried again for as long as the controller is busy.
    pub fn block_write_page(&mut self, bytes: &[u8], page: Page) -> (result: Result<
        (),
        FlashError,
    >)
        requires
            old(self).inv(),
            page.0 < PAGE_COUNT,
            bytes@.len() == PAGE_SIZE,
        ensures
            final(self).inv(),
            final(self).msc.reliable() == old(self).msc.reliable(),
            final(self).msc.pending() == 0,
            old(self).msc.reliable() ==> result is Ok,
            match result {
                Ok(()) => {
                    &&& same_outside(
                        old(self).msc.memory(),
                        final(self).msc.memory(),
                        page.spec_location() as int,
                        page.spec_end() as int,
                    )
                    &&& (forall|i: int|
                        page.spec_location() <= i < page.spec_end() ==> old(self).msc.memory()[i]
                            == ERASED) ==> final(self).msc.memory() == overlaid(
                        old(self).msc.memory(),
                        page.spec_location() as int,
                        bytes@,
                    )
                },
                Err(FlashError::InvalidAddress) | Err(FlashError::MemoryIsLocked) => same_outside(
                    old(self).msc.memory(),
                    final(self).msc.memory(),
                    page.spec_location() as int,
                    page.spec_end() as int,
                ),
                Err(_) => false,
            },
    {
        loop
            invariant
                self.inv(),
                page.0 < PAGE_COUNT,
                bytes@.len() == PAGE_SIZE,
                self.msc.reliable() == old(self).msc.reliable(),
                self.msc.memory() == old(self).msc.memory(),
            decreases self.msc.pending(),
        {
            match self.write_page(bytes, page) {
                Ok(()) => {
                    return Ok(());
                },
                Err(nb::Error::WouldBlock) => {},
                Err(nb::Error::Other(error)) => {
                    return Err(error);
                },
            }
        }
    }

    /// Writes the piece `bytes` into `page` at `address`: reads what the
    /// page holds, puts the piece in its place, erases the page and programs
    /// it again.
    pub fn rewrite_page(&mut self, page: Page, bytes: &[u8], address: Address) -> (result: Result<
        (),
        FlashError,
    >)
        requires
            old(self).inv(),
            page.0 < PAGE_COUNT,
            page.spec_location() <= address.0,
            address.0 + bytes@.len() <= page.spec_end(),
        ensures
            final(self).inv(),
            final(self).msc.reliable() == old(self).msc.reliable(),
            final(self).msc.pending() == old(self).msc.pending() || final(self).msc.pending() == 0,
            old(self).msc.reliable() ==> result is Ok,
            match result {
                Ok(()) => {
                    &&& final(self).msc.pending() == 0
                    &&& final(self).msc.memory() == overlaid(
                        old(self).msc.memory(),
                        address.0 as int,
                        bytes@,
                    )
                },
                Err(FlashError::InvalidAddress) | Err(FlashError::MemoryIsLocked) => {
                    &&& final(self).msc.pending() == 0
                    &&& same_outside(
                        old(self).msc.memory(),
                        final(self).msc.memory(),
                        page.spec_location() as int,
                        page.spec_end() as int,
                    )
                },
                Err(_) => false,
            },
    {
        let ghost before = self.msc.memory();
        let start = page.address();
        let mut page_data: Vec<u8> = vec![0u8; 4096];
        match self.read(start, page_data.as_mut_slice()) {
            Ok(()) => {},
            Err(_) => {
                return Err(FlashError::MemoryNotReachable);
            },
        }
        let offset = (address.0 - start.0) as usize;
        let ghost held = page_data@;
        let mut i: usize = 0;
        while i < bytes.len()
            invariant
                i <= bytes@.len(),
                offset + bytes@.len() <= PAGE_SIZE,
                held.len() == PAGE_SIZE,
                page_data@.len() == PAGE_SIZE,
                forall|j: int|
                    0 <= j < PAGE_SIZE ==> page_data@[j] == if offset <= j < offset + i {
                        bytes@[j - offset]
                    } else {
                        held[j]
                    },
            decreases bytes@.len() - i,
        {
            page_data[offset + i] = bytes[i];
            i += 1;
        }
        let erased = self.block_erase_page(page);
        if let Err(error) = erased {
            return Err(error);
        }
        let ghost blank = self.msc.memory();
        let written = self.block_write_page(page_data.as_slice(), page);
        proof {
            if written is Ok {
                assert(self.msc.memory() =~= overlaid(before, address.0 as int, bytes@));
            }
            if written is Err {
                let now = self.msc.memory();
                assert forall|k: int|
                    0 <= k < before.len() && !(page.spec_location() <= k < page.spec_end())
                    implies now[k] == before[k] by {
                    assert(now[k] == blank[k]);
                }
            }
        }
        written
    }
}

impl<X: CommandExecutor<Fault = Fault>> ReadWrite for Flash<X> {
    type Error = FlashError;

    type Address = Address;

    /// The controller drives a flash with the pages of this chip.
    open spec fn inv(&self) -> bool {
        &&& self.msc.inv()
        &&& self.msc.block_size() == PAGE_SIZE
        &&& self.msc.memory().len() == MEMORY_SIZE
    }

    open spec fn patience(&self) -> nat {
        self.msc.pending()
    }

    open spec fn contents(&self) -> Option<(nat, Seq<u8>)> {
        Some((0nat, self.msc.memory()))
    }

    open spec fn transfer_size() -> nat {
        TRANSFER_SIZE as nat
    }

    fn label() -> (label: &'static str)
        ensures
            label == "efm32gg11b flash (Internal)",
    {
        "efm32gg11b flash (Internal)"
    }

    /// Fills `bytes` with what the flash holds from `address` on. The
    /// flash is read whether or not the controller is busy.
    fn read(&mut self, address: Address, bytes: &mut [u8]) -> (result: Result<
        (),
        nb::Error<FlashError>,
    >)
        ensures
            final(self).msc == old(self).msc,
            result is Ok == reachable(address, old(bytes)@.len()),
            match result {
                Ok(()) => final(bytes)@ == final(self).msc.memory().subrange(
                    address.0 as int,
                    address.0 + old(bytes)@.len(),
                ),
                Err(error) => {
                    &&& error == nb::Error::Other(FlashError::MemoryNotReachable)
                    &&& final(bytes)@ == old(bytes)@
                },
            },
    {
        if bytes.len() > MEMORY_SIZE || address.0 > (MEMORY_SIZE - bytes.len()) as u32 {
            return Err(nb::Error::Other(FlashError::MemoryNotReachable));
        }
        self.msc.read(address.0, bytes);
        Ok(())
    }

    /// Makes the flash hold `bytes` from `address` on: every page that
    /// holds some of the bytes is read, erased and programmed again, by
    /// ascending address. Bytes that would lie past the end of the flash are
    /// left out. A write that fails on the way leaves the pages before the
    /// failure written and those after it as they were.
    fn write(&mut self, address: Address, bytes: &[u8]) -> (result: Result<
        (),
        nb::Error<FlashError>,
    >)
        ensures
            final(self).msc.reliable() == old(self).msc.reliable(),
            (result == Err::<(), nb::Error<FlashError>>(
                nb::Error::Other(FlashError::MisalignedAccess),
            )) == !aligned(address, bytes@.len()),
            (result is Err && result->Err_0 is WouldBlock) == (aligned(address, bytes@.len())
                && old(self).msc.pending() > 0),
            old(self).msc.reliable() && old(self).msc.pending() == 0 && aligned(
                address,
                bytes@.len(),
            ) ==> result is Ok,
            match result {
                Ok(()) => {
                    &&& final(self).msc.pending() == 0
                    &&& final(self).msc.memory() == overlaid(
                        old(self).msc.memory(),
                        address.0 as int,
                        bytes@,
                    )
                },
                Err(nb::Error::WouldBlock) => final(self).msc.memory() == old(self).msc.memory(),
                Err(nb::Error::Other(FlashError::MisalignedAccess)) => {
                    &&& final(self).msc.memory() == old(self).msc.memory()
                    &&& final(self).msc.pending() == old(self).msc.pending()
                },
                Err(nb::Error::Other(FlashError::MemoryNotReachable)) => false,
                Err(nb::Error::Other(_)) => {
                    &&& same_in_other_pages(
                        old(self).msc.memory(),
                        final(self).msc.memory(),
                        address.0 as int,
                        bytes@.len() as int,
                    )
                    &&& written_up_to_a_block(
                        old(self).msc.memory(),
                        final(self).msc.memory(),
                        address.0 as int,
                        bytes@,
                        PAGE_SIZE as int,
                    )
                },
            },
    {
        let correctly_aligned_start = address.0 & 0b11 == 0;
        let correctly_aligned_end = bytes.len() & 0b11 == 0;
        proof {
            let start = address.0;
            let len = bytes.len();
            assert((start & 0b11 == 0) == (start % 4 == 0)) by (bit_vector);
            assert((len & 0b11 == 0) == (len % 4 == 0)) by (bit_vector);
        }
        if !correctly_aligned_end || !correctly_aligned_start {
            return Err(nb::Error::Other(FlashError::MisalignedAccess));
        }
        if self.msc.is_busy() {
            return Err(nb::Error::WouldBlock);
        }
        let ghost before = self.msc.memory();
        let pages = PageMap::pages();
        let pieces = memory::overlaps(pages.as_slice(), bytes.len(), address);
        let ghost bounds = pages_of_flash();
        let ghost covered = memory::clamp(MEMORY_SIZE - address.0, bytes@.len());
        proof {
            assert(memory::spans::<Address, Page>(pages@) =~= bounds);
            lemma_pages_are_contiguous();
            memory::lemma_overlaps_fit(bounds, address.0 as nat, bytes@.len());
            memory::lemma_overlaps_tile(bounds, address.0 as nat, bytes@.len());
            reveal(memory::tiles);
            assert(bytes@.take(0) =~= Seq::<u8>::empty());
            assert(before =~= overlaid(before, address.0 as int, bytes@.take(0)));
        }
        let mut i: usize = 0;
        while i < pieces.len()
            invariant
                self.inv(),
                self.msc.reliable() == old(self).msc.reliable(),
                self.msc.pending() == 0,
                old(self).msc.pending() == 0,
                before == old(self).msc.memory(),
                before.len() == MEMORY_SIZE,
                aligned(address, bytes@.len()),
                address.0 + bytes@.len() <= u32::MAX,
                i <= pieces@.len(),
                pages@.len() == PAGE_COUNT,
                forall|k: int| 0 <= k < pages@.len() ==> (#[trigger] pages@[k]).0 == k,
                bounds == pages_of_flash(),
                bounds == memory::spans::<Address, Page>(pages@),
                pieces@ == memory::overlaps_of(bounds, address.0 as nat, bytes@.len()),
                covered == memory::clamp(MEMORY_SIZE - address.0, bytes@.len()),
                memory::tiles(pieces@, bounds, address.0 as nat, 0, covered),
                forall|k: int|
                    0 <= k < pieces@.len() ==> memory::fits(
                        #[trigger] pieces@[k],
                        bounds,
                        address.0 as nat,
                    ) && pieces@[k].end <= bytes@.len(),
                self.msc.memory() == overlaid(
                    before,
                    address.0 as int,
                    bytes@.take(
                        if i < pieces@.len() {
                            pieces@[i as int].start as int
                        } else {
                            covered as int
                        },
                    ),
                ),
            decreases pieces@.len() - i,
        {
            let piece = pieces[i];
            let ghost middle = self.msc.memory();
            proof {
                reveal(memory::tiles);
                assert(memory::fits(piece, bounds, address.0 as nat));
                if i + 1 < pieces@.len() {
                    assert(memory::continues(pieces@, i + 1));
                } else {
                    assert(pieces@.last() == piece);
                }
            }
            let page = pages[piece.block];
            let chunk = slice_subrange(bytes, piece.start, piece.end);
            let rewritten = self.rewrite_page(page, chunk, Address(piece.address));
            proof {
                let now = self.msc.memory();
                if rewritten is Ok {
                    lemma_write_piecewise(
                        before,
                        address.0 as int,
                        bytes@,
                        piece.start as int,
                        piece.end as int,
                    );
                } else {
                    assert forall|k: int|
                        0 <= k < before.len() && !in_touched_page(
                            k,
                            address.0 as int,
                            bytes@.len() as int,
                        ) implies now[k] == before[k] by {
                        lemma_page_start(k, piece.block as int);
                        assert(now[k] == middle[k]);
                        assert(middle[k] == before[k]);
                    }
                    assert(stopped_in(
                        before,
                        now,
                        address.0 as int,
                        bytes@,
                        PAGE_SIZE as int,
                        piece.start as int,
                        piece.block as int,
                    ));
                }
            }
            if let Err(error) = rewritten {
                return Err(nb::Error::Other(error));
            }
            i += 1;
        }
        proof {
            reveal(memory::tiles);
            assert(self.msc.memory() =~= overlaid(before, address.0 as int, bytes@));
        }
        Ok(())
    }

    fn range(&self) -> (range: (Address, Address))
        ensures
            range.0 == Address(0),
            range.1.0 == MEMORY_SIZE,
    {
        (Address(0), Address(MEMORY_SIZE as u32))
    }

    /// Erases the whole flash and waits until the controller has done so.
    /// A fault that the controller raised is reported, and its flag cleared.
    fn erase(&mut self) -> (result: Result<(), nb::Error<FlashError>>)
        ensures
            final(self).msc.reliable() == old(self).msc.reliable(),
            (result is Err && result->Err_0 is WouldBlock) == (old(self).msc.pending() > 0),
            old(self).msc.reliable() && old(self).msc.pending() == 0 ==> result is Ok,
            !(result is Err && result->Err_0 is WouldBlock) ==> final(self).msc.fault() is None,
            match result {
                Ok(()) => {
                    &&& final(self).msc.pending() == 0
                    &&& final(self).msc.memory() == erased(
                        old(self).msc.memory(),
                        0,
                        MEMORY_SIZE as int,
                    )
                },
                Err(nb::Error::WouldBlock) => final(self).msc.memory() == old(self).msc.memory(),
                Err(nb::Error::Other(FlashError::InvalidAddress))
                | Err(nb::Error::Other(FlashError::MemoryIsLocked)) => {
                    &&& final(self).msc.pending() == 0
                    &&& final(self).msc.memory().len() == old(self).msc.memory().len()
                },
                Err(nb::Error::Other(_)) => false,
            },
    {
        if self.msc.is_busy() {
            return Err(nb::Error::WouldBlock);
        }
        self.msc.erase_all();
        wait_until_not_busy(&mut self.msc);
        self.verify_status()
    }

    /// Passes the blocks on in transfers of `TRANSFER_SIZE` bytes, and what
    /// is left in one more transfer, which is written even where it is empty.
    fn write_from_blocks<const N: usize>(&mut self, address: Address, blocks: &[[u8; N]]) -> (result:
        Result<(), FlashError>)
        ensures
            final(self).msc.reliable() == old(self).msc.reliable(),
            old(self).msc.reliable() && aligned(address, (blocks@.len() * N) as nat)
                ==> result is Ok,
            match result {
                Ok(()) => final(self).msc.memory() == overlaid(
                    old(self).msc.memory(),
                    address.0 as int,
                    flattened(blocks@),
                ),
                Err(_) => written_up_to_a_block(
                    old(self).msc.memory(),
                    final(self).msc.memory(),
                    address.0 as int,
                    flattened(blocks@),
                    PAGE_SIZE as int,
                ),
            },
    {
        let ghost before = self.msc.memory();
        let ghost bytes = flattened(blocks@);
        let chunks = transfers(blocks, TRANSFER_SIZE);
        let mut offset: usize = 0;
        let mut c: usize = 0;
        proof {
            assert(bytes.take(0) =~= Seq::<u8>::empty());
            assert(before =~= overlaid(before, address.0 as int, bytes.take(0)));
        }
        while c < chunks.len()
            invariant
                self.inv(),
                self.msc.reliable() == old(self).msc.reliable(),
                before == old(self).msc.memory(),
                before.len() == MEMORY_SIZE,
                c <= chunks@.len(),
                bytes == flattened(blocks@),
                bytes.len() == blocks@.len() * N,
                address.0 + bytes.len() <= u32::MAX,
                cut_into(chunks@, bytes, TRANSFER_SIZE as nat),
                c < chunks@.len() ==> offset == c * TRANSFER_SIZE,
                c == chunks@.len() ==> offset == bytes.len(),
                offset <= bytes.len(),
                self.msc.memory() == overlaid(before, address.0 as int, bytes.take(offset as int)),
            decreases chunks@.len() - c,
        {
            let chunk = chunks[c].as_slice();
            proof {
                if c < chunks@.len() - 1 {
                    assert(chunk@ == bytes.subrange(
                        c * TRANSFER_SIZE,
                        c * TRANSFER_SIZE + TRANSFER_SIZE as nat,
                    ));
                }
                assert(chunk@ == bytes.subrange(offset as int, offset + chunk@.len()));
                assert(offset % 4 == 0 && (offset + chunk@.len() == bytes.len() || chunk@.len()
                    == TRANSFER_SIZE));
            }
            let target = Address(address.0 + offset as u32);
            loop
                invariant_except_break
                    self.msc.memory() == overlaid(
                        before,
                        address.0 as int,
                        bytes.take(offset as int),
                    ),
                invariant
                    self.inv(),
                    self.msc.reliable() == old(self).msc.reliable(),
                    target.0 + chunk@.len() <= u32::MAX,
                    target.0 == address.0 + offset,
                    before == old(self).msc.memory(),
                    before.len() == MEMORY_SIZE,
                    offset % 4 == 0,
                    offset + chunk@.len() <= bytes.len(),
                    offset + chunk@.len() == bytes.len() || chunk@.len() == TRANSFER_SIZE,
                    chunk@ == bytes.subrange(offset as int, offset + chunk@.len()),
                    bytes == flattened(blocks@),
                    bytes.len() == blocks@.len() * N,
                ensures
                    self.msc.memory() == overlaid(
                        overlaid(before, address.0 as int, bytes.take(offset as int)),
                        target.0 as int,
                        chunk@,
                    ),
                decreases self.msc.pending(),
            {
                let ghost middle = self.msc.memory();
                let written = self.write(target, chunk);
                proof {
                    if written is Err && !(written->Err_0 is WouldBlock) {
                        let now = self.msc.memory();
                        if now == middle {
                            lemma_stopped_before(
                                before,
                                now,
                                address.0 as int,
                                bytes,
                                offset as int,
                                PAGE_SIZE as int,
                            );
                        } else {
                            lemma_transfer_stopped(
                                before,
                                middle,
                                now,
                                address.0 as int,
                                bytes,
                                offset as int,
                                chunk@,
                                PAGE_SIZE as int,
                            );
                        }
                    }
                }
                match written {
                    Ok(()) => {
                        break ;
                    },
                    Err(nb::Error::WouldBlock) => {},
                    Err(nb::Error::Other(error)) => {
                        return Err(error);
                    },
                }
            }
            proof {
                lemma_write_piecewise(
                    before,
                    address.0 as int,
                    bytes,
                    offset as int,
                    offset + chunk@.len(),
                );
            }
            offset += chunk.len();
            c += 1;
        }
        proof {
            assert(bytes.take(bytes.len() as int) =~= bytes);
        }
        Ok(())
    }
}

} // verus!
