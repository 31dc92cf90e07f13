//! Internal flash controller for the MAX3263 family.
use crate::hal::flash::CommandExecutor;
use crate::hal::flash::ERASED;
use crate::hal::flash::ReadWrite;
use crate::hal::flash::cut_into;
use crate::hal::flash::erased;
use crate::hal::flash::flattened;
use crate::hal::flash::lemma_stopped_before;
use crate::hal::flash::lemma_transfer_stopped;
use crate::hal::flash::lemma_write_piecewise;
use crate::hal::flash::overlaid;
use crate::hal::flash::program_words;
use crate::hal::flash::same_outside;
use crate::hal::flash::stopped_in;
use crate::hal::flash::transfers;
use crate::hal::flash::wait_until_not_busy;
use crate::hal::flash::written_up_to_a_block;
use crate::utilities::memory;
use crate::utilities::memory::Region;
use vstd::prelude::*;
use vstd::slice::slice_subrange;
use vstd::std_specs::convert::IntoSpecImpl;
use vstd::std_specs::ops::AddSpecImpl;
use vstd::std_specs::ops::SubSpecImpl;

verus! {

/// Bytes in a page, the unit of erasure.
pub const PAGE_SIZE: u32 = 8192;

pub const PAGE_COUNT: u32 = 256;

/// Bytes in the flash.
pub const MEMORY_SIZE: u32 = 2097152;

/// Bytes that `write_from_blocks` gathers before it writes them.
pub const TRANSFER_SIZE: usize = 4096;

/// How the size of the flash follows from its pages.
pub proof fn lemma_geometry()
    ensures
        MEMORY_SIZE == PAGE_SIZE * PAGE_COUNT,
{
}

/// What can go wrong with the flash.
#[derive(Copy, Clone, Debug, PartialEq, Eq, Structural)]
pub enum FlashError {
    AddressOutOfRange,
    PageEraseFailed,
    MassEraseFailed,
    WriteFailed,
    UnalignedAccess,
}

/// Address into the flash.
#[derive(Default, Copy, Clone, Debug, PartialOrd, PartialEq, Eq, Ord, Structural)]
pub struct Address(pub u32);

impl core::ops::Add<usize> for Address {
    type Output = Address;

    /// The address `rhs` bytes further on.
    fn add(self, rhs: usize) -> (sum: Address) {
        Address(self.0 + rhs as u32)
    }
}

impl AddSpecImpl<usize> for Address {
    open spec fn obeys_add_spec() -> bool {
        true
    }

    open spec fn add_req(self, rhs: usize) -> bool {
        self.0 + rhs <= u32::MAX
    }

    open spec fn add_spec(self, rhs: usize) -> Address {
        Address((self.0 + rhs) as u32)
    }
}

impl core::ops::Sub<usize> for Address {
    type Output = Address;

    /// The address `rhs` bytes back, or the first address where there are
    /// not that many before this one.
    fn sub(self, rhs: usize) -> (difference: Address) {
        if rhs >= self.0 as usize {
            Address(0)
        } else {
            Address(self.0 - rhs as u32)
        }
    }
}

impl SubSpecImpl<usize> for Address {
    open spec fn obeys_sub_spec() -> bool {
        true
    }

    open spec fn sub_req(self, rhs: usize) -> bool {
        true
    }

    open spec fn sub_spec(self, rhs: usize) -> Address {
        if rhs >= self.0 {
            Address(0)
        } else {
            Address((self.0 - rhs) as u32)
        }
    }
}

impl core::ops::Sub<Address> for Address {
    type Output = usize;

    /// The number of bytes from `rhs` up to this address, or zero where
    /// `rhs` lies behind it.
    fn sub(self, rhs: Address) -> (distance: usize) {
        if rhs.0 >= self.0 {
            0
        } else {
            (self.0 - rhs.0) as usize
        }
    }
}

impl SubSpecImpl<Address> for Address {
    open spec fn obeys_sub_spec() -> bool {
        true
    }

    open spec fn sub_req(self, rhs: Address) -> bool {
        true
    }

    open spec fn sub_spec(self, rhs: Address) -> usize {
        if rhs.0 >= self.0 {
            0
        } else {
            (self.0 - rhs.0) as usize
        }
    }
}

impl Into<usize> for Address {
    fn into(self) -> (value: usize) {
        self.0 as usize
    }
}

impl IntoSpecImpl<usize> for Address {
    open spec fn obeys_into_spec() -> bool {
        true
    }

    open spec fn into_spec(self) -> usize {
        self.0 as usize
    }
}

impl memory::Address for Address {
    open spec fn spec_offset(self) -> nat {
        self.0 as nat
    }

    fn offset(self) -> (offset: u32) {
        self.0
    }

    fn forward(self, distance: usize) -> (address: Address) {
        Address(self.0 + distance as u32)
    }
}

/// The pages of the flash.
#[derive(Copy, Clone, Debug)]
pub struct PageMap;

/// A page of the flash.
#[derive(Copy, Clone, Debug)]
pub struct Page(u32);

impl PageMap {
    /// Every page of the flash, by ascending address.
    pub fn pages() -> (pages: Vec<Page>)
        ensures
            pages@.len() == PAGE_COUNT,
            pages@.len() == MEMORY_SIZE / PAGE_SIZE,
            forall|i: int| 0 <= i < pages@.len() ==> (#[trigger] pages@[i]).spec_index() == i,
    {
        let mut pages: Vec<Page> = Vec::new();
        let mut index: u32 = 0;
        while index < PAGE_COUNT
            invariant
                index <= PAGE_COUNT,
                pages@.len() == index,
                forall|i: int| 0 <= i < index ==> (#[trigger] pages@[i]).spec_index() == i,
            decreases PAGE_COUNT - index,
        {
            pages.push(Page(index));
            index += 1;
        }
        pages
    }
}

impl Page {
    /// Number of the page, counted from the start of the flash.
    pub closed spec fn spec_index(&self) -> nat {
        self.0 as nat
    }

    /// Whether the flash has a page of this number.
    pub open spec fn valid(&self) -> bool {
        self.spec_index() < PAGE_COUNT
    }

    #[verifier::type_invariant]
    spec fn is_in_flash(self) -> bool {
        self.valid()
    }

    pub fn index(&self) -> (index: u32)
        ensures
            index == self.spec_index(),
            self.valid(),
    {
        proof {
            use_type_invariant(self);
        }
        self.0
    }

    /// Address of the first byte of the page.
    pub fn address(&self) -> (address: Address)
        ensures
            address.0 == self.spec_location(),
            self.valid(),
    {
        proof {
            use_type_invariant(self);
        }
        Address(PAGE_SIZE * self.0)
    }

    /// The page that holds `address`, if the flash has such an address.
    pub fn at(address: Address) -> (found: Option<Page>)
        ensures
            match found {
                Some(page) => page.valid() && memory::covers(&page, address),
                None => !memory::covers(&PageMap, address),
            },
    {
        if address.0 >= MEMORY_SIZE {
            None
        } else {
            Some(Page(address.0 / PAGE_SIZE))
        }
    }
}

impl memory::Region<Address> for PageMap {
    open spec fn spec_location(&self) -> nat {
        0
    }

    open spec fn spec_end(&self) -> nat {
        MEMORY_SIZE as nat
    }

    fn span(&self) -> (span: (u32, u32)) {
        (0, MEMORY_SIZE)
    }

    fn contains(&self, address: Address) -> (inside: bool) {
        address.0 < MEMORY_SIZE
    }
}

impl memory::Region<Address> for Page {
    open spec fn spec_location(&self) -> nat {
        (self.spec_index() * PAGE_SIZE) as nat
    }

    open spec fn spec_end(&self) -> nat {
        ((self.spec_index() + 1) * PAGE_SIZE) as nat
    }

    fn span(&self) -> (span: (u32, u32)) {
        let start = self.address().0;
        (start, start + PAGE_SIZE)
    }

    fn contains(&self, address: Address) -> (inside: bool) {
        let start = self.address().0;
        address.0 >= start && address.0 < start + PAGE_SIZE
    }
}

/// No address lies in two pages.
pub proof fn lemma_pages_do_not_overlap(a: Page, b: Page, address: Address)
    requires
        a.spec_index() != b.spec_index(),
    ensures
        !(memory::covers(&a, address) && memory::covers(&b, address)),
{
}

/// Bounds of the pages of the flash, in order.
pub open spec fn pages_of_flash() -> Seq<(nat, nat)> {
    Seq::new(
        PAGE_COUNT as nat,
        |k: int| ((k * PAGE_SIZE) as nat, ((k + 1) * PAGE_SIZE) as nat),
    )
}

/// The pages cover the flash without a gap.
pub proof fn lemma_pages_are_contiguous()
    ensures
        memory::contiguous(pages_of_flash()),
        pages_of_flash()[0].0 == 0,
        pages_of_flash().last().1 == MEMORY_SIZE,
{
    let spans = pages_of_flash();
    assert forall|k: int| 0 < k < spans.len() implies #[trigger] memory::adjoins(spans, k) by {}
}

/// Position of the first byte of the page that holds position `i`.
pub open spec fn page_start(i: int) -> int {
    (i / PAGE_SIZE as int) * PAGE_SIZE
}

/// Whether the page that holds position `i` holds a byte of the `len`
/// bytes from `address` on.
pub open spec fn in_touched_page(i: int, address: int, len: int) -> bool {
    page_start(i) < address + len && address < page_start(i) + PAGE_SIZE
}

/// Whether two memories hold the same in every page that holds none of the
/// `len` bytes from `address` on.
pub open spec fn same_in_other_pages(before: Seq<u8>, after: Seq<u8>, address: int, len: int) -> bool {
    &&& after.len() == before.len()
    &&& forall|i: int|
        0 <= i < before.len() && !in_touched_page(i, address, len) ==> after[i] == before[i]
}

/// A position lies in the page that starts at its page start, and in no
/// other.
pub proof fn lemma_page_start(i: int, page: int)
    requires
        0 <= i,
    ensures
        page_start(i) <= i < page_start(i) + PAGE_SIZE,
        (page * PAGE_SIZE <= i < (page + 1) * PAGE_SIZE) == (page_start(i) == page * PAGE_SIZE),
{
}

/// Whether `len` bytes from `address` on can be written: address and
/// length are multiples of four.
pub open spec fn aligned(address: Address, len: nat) -> bool {
    address.0 % 4 == 0 && len % 4 == 0
}

/// Whether `len` bytes at `address` all lie in the flash.
pub open spec fn reachable(address: Address, len: nat) -> bool {
    address.0 + len <= MEMORY_SIZE
}

/// Driver of the flash, over the controller of the flash.
pub struct Flash<X: CommandExecutor> {
    pub flc: X,
}

impl<X: CommandExecutor> Flash<X> {
    /// A driver for the flash behind `flc`, which has the pages of this
    /// family.
    pub fn new(flc: X) -> (flash: Self)
        requires
            flc.inv(),
            flc.block_size() == PAGE_SIZE,
            flc.memory().len() == MEMORY_SIZE,
        ensures
            flash.inv(),
            flash.flc == flc,
    {
        Flash { flc }
    }

    /// Erases one page and waits until the controller has done so.
    pub fn erase_page(&mut self, page: Page) -> (result: Result<(), nb::Error<FlashError>>)
        requires
            old(self).inv(),
        ensures
            final(self).inv(),
            final(self).flc.reliable() == old(self).flc.reliable(),
            (result is Err && result->Err_0 is WouldBlock) == (old(self).flc.pending() > 0),
            old(self).flc.reliable() && old(self).flc.pending() == 0 ==> result is Ok,
            !(result is Err && result->Err_0 is WouldBlock) ==> final(self).flc.fault() is None,
            match result {
                Ok(()) => {
                    &&& final(self).flc.pending() == 0
                    &&& final(self).flc.memory() == erased(
                        old(self).flc.memory(),
                        page.spec_location() as int,
                        page.spec_end() as int,
                    )
                },
                Err(nb::Error::WouldBlock) => {
                    &&& final(self).flc.pending() < old(self).flc.pending()
                    &&& final(self).flc.memory() == old(self).flc.memory()
                },
                Err(nb::Error::Other(FlashError::PageEraseFailed)) => {
                    &&& final(self).flc.pending() == 0
                    &&& same_outside(
                        old(self).flc.memory(),
                        final(self).flc.memory(),
                        page.spec_location() as int,
                        page.spec_end() as int,
                    )
                },
                Err(nb::Error::Other(_)) => false,
            },
    {
        if self.flc.is_busy() {
            return Err(nb::Error::WouldBlock);
        }
        let _ = self.flc.take_fault();
        let address = page.address();
        self.flc.erase_block(address.0);
        wait_until_not_busy(&mut self.flc);
        match self.flc.take_fault() {
            Some(_) => Err(nb::Error::Other(FlashError::PageEraseFailed)),
            None => Ok(()),
        }
    }

    /// Programs `bytes` at `address`, word by word, and waits until the
    /// controller has done so. The range has to be erased.
    pub fn write_range(&mut self, address: Address, bytes: &[u8]) -> (result: Result<
        (),
        nb::Error<FlashError>,
    >)
        requires
            old(self).inv(),
            reachable(address, bytes@.len()),
        ensures
            final(self).inv(),
            final(self).flc.reliable() == old(self).flc.reliable(),
            (result is Err && result->Err_0 is WouldBlock) == (old(self).flc.pending() > 0),
            (result == Err::<(), nb::Error<FlashError>>(nb::Error::Other(FlashError::UnalignedAccess)))
                == (old(self).flc.pending() == 0 && !aligned(address, bytes@.len())),
            old(self).flc.reliable() && old(self).flc.pending() == 0 && aligned(
                address,
                bytes@.len(),
            ) ==> result is Ok,
            match result {
                Ok(()) => {
                    &&& final(self).flc.pending() == 0
                    &&& same_outside(
                        old(self).flc.memory(),
                        final(self).flc.memory(),
                        address.0 as int,
                        address.0 + bytes@.len(),
                    )
                    &&& (forall|i: int|
                        address.0 <= i < address.0 + bytes@.len() ==> old(self).flc.memory()[i]
                            == ERASED) ==> final(self).flc.memory() == overlaid(
                        old(self).flc.memory(),
                        address.0 as int,
                        bytes@,
                    )
                },
                Err(nb::Error::WouldBlock) => {
                    &&& final(self).flc.pending() < old(self).flc.pending()
                    &&& final(self).flc.memory() == old(self).flc.memory()
                },
                Err(nb::Error::Other(FlashError::UnalignedAccess)) => {
                    &&& final(self).flc.pending() == 0
                    &&& final(self).flc.memory() == old(self).flc.memory()
                },
                Err(nb::Error::Other(FlashError::WriteFailed)) => {
                    &&& final(self).flc.pending() == 0
                    &&& same_outside(
                        old(self).flc.memory(),
                        final(self).flc.memory(),
                        address.0 as int,
                        address.0 + bytes@.len(),
                    )
                },
                Err(nb::Error::Other(_)) => false,
            },
    {
        if self.flc.is_busy() {
            return Err(nb::Error::WouldBlock);
        }
        let is_start_aligned = address.0 % 4 == 0;
        let is_end_aligned = bytes.len() % 4 == 0;
        if !is_start_aligned || !is_end_aligned {
            return Err(nb::Error::Other(FlashError::UnalignedAccess));
        }
        let _ = self.flc.take_fault();
        program_words(&mut self.flc, address.0, bytes);
        match self.flc.take_fault() {
            Some(_) => Err(nb::Error::Other(FlashError::WriteFailed)),
            None => Ok(()),
        }
    }
}

impl<X: CommandExecutor> Flash<X> {
    /// `erase_page`, tried again for as long as the controller is busy.
    pub fn block_erase_page(&mut self, page: Page) -> (result: Result<(), FlashError>)
        requires
            old(self).inv(),
        ensures
            final(self).inv(),
            final(self).flc.reliable() == old(self).flc.reliable(),
            final(self).flc.pending() == 0,
            old(self).flc.reliable() ==> result is Ok,
            match result {
                Ok(()) => final(self).flc.memory() == erased(
                    old(self).flc.memory(),
                    page.spec_location() as int,
                    page.spec_end() as int,
                ),
                Err(FlashError::PageEraseFailed) => same_outside(
                    old(self).flc.memory(),
                    final(self).flc.memory(),
                    page.spec_location() as int,
                    page.spec_end() as int,
                ),
                Err(_) => false,
            },
    {
        loop
            invariant
                self.inv(),
                self.flc.reliable() == old(self).flc.reliable(),
                self.flc.memory() == old(self).flc.memory(),
            decreases self.flc.pending(),
        {
            match self.erase_page(page) {
                Ok(()) => {
                    return Ok(());
                },
                Err(nb::Error::WouldBlock) => {},
                Err(nb::Error::Other(error)) => {
                    return Err(error);
                },
            }
        }
    }

    /// `write_range`, tried again for as long as the controller is busy.
    pub fn block_write_range(&mut self, address: Address, bytes: &[u8]) -> (result: Result<
        (),
        FlashError,
    >)
        requires
            old(self).inv(),
            reachable(address, bytes@.len()),
        ensures
            final(self).inv(),
            final(self).flc.reliable() == old(self).flc.reliable(),
            final(self).flc.pending() == 0,
            (result == Err::<(), FlashError>(FlashError::UnalignedAccess)) == !aligned(
                address,
                bytes@.len(),
            ),
            old(self).flc.reliable() && aligned(address, bytes@.len()) ==> result is Ok,
            match result {
                Ok(()) => {
                    &&& same_outside(
                        old(self).flc.memory(),
                        final(self).flc.memory(),
                        address.0 as int,
                        address.0 + bytes@.len(),
                    )
                    &&& (forall|i: int|
                        address.0 <= i < address.0 + bytes@.len() ==> old(self).flc.memory()[i]
                            == ERASED) ==> final(self).flc.memory() == overlaid(
                        old(self).flc.memory(),
                        address.0 as int,
                        bytes@,
                    )
                },
                Err(FlashError::UnalignedAccess) => final(self).flc.memory() == old(
                    self,
                ).flc.memory(),
                Err(FlashError::WriteFailed) => same_outside(
                    old(self).flc.memory(),
                    final(self).flc.memory(),
                    address.0 as int,
                    address.0 + bytes@.len(),
                ),
                Err(_) => false,
            },
    {
        loop
            invariant
                self.inv(),
                reachable(address, bytes@.len()),
                self.flc.reliable() == old(self).flc.reliable(),
                self.flc.memory() == old(self).flc.memory(),
            decreases self.flc.pending(),
        {
            match self.write_range(address, bytes) {
                Ok(()) => {
                    return Ok(());
                },
                Err(nb::Error::WouldBlock) => {},
                Err(nb::Error::Other(error)) => {
                    return Err(error);
                },
            }
        }
    }

    /// Writes the piece `bytes` into `page` at `address`: reads what the
    /// page holds, puts the piece in its place, erases the page and programs
    /// it again.
    pub fn rewrite_page(&mut self, page: Page, bytes: &[u8], address: Address) -> (result: Result<
        (),
        FlashError,
    >)
        requires
            old(self).inv(),
            page.spec_location() <= address.0,
            address.0 + bytes@.len() <= page.spec_end(),
        ensures
            final(self).inv(),
            final(self).flc.reliable() == old(self).flc.reliable(),
            final(self).flc.pending() == 0,
            old(self).flc.reliable() ==> result is Ok,
            match result {
                Ok(()) => final(self).flc.memory() == overlaid(
                    old(self).flc.memory(),
                    address.0 as int,
                    bytes@,
                ),
                Err(FlashError::PageEraseFailed) => same_outside(
                    old(self).flc.memory(),
                    final(self).flc.memory(),
                    page.spec_location() as int,
                    page.spec_end() as int,
                ),
                Err(FlashError::WriteFailed) => same_outside(
                    old(self).flc.memory(),
                    final(self).flc.memory(),
                    page.spec_location() as int,
                    page.spec_end() as int,
                ),
                Err(_) => false,
            },
    {
        let ghost before = self.flc.memory();
        let start = page.address();
        let mut page_data: Vec<u8> = vec![0u8; 8192];
        let offset = (address.0 - start.0) as usize;
        self.flc.read(start.0, page_data.as_mut_slice());
        let ghost held = page_data@;
        let mut i: usize = 0;
        while i < bytes.len()
            invariant
                i <= bytes@.len(),
                offset + bytes@.len() <= PAGE_SIZE,
                held.len() == PAGE_SIZE,
                page_data@.len() == PAGE_SIZE,
                forall|j: int|
                    0 <= j < PAGE_SIZE ==> page_data@[j] == if offset <= j < offset + i {
                        bytes@[j - offset]
                    } else {
                        held[j]
                    },
            decreases bytes@.len() - i,
        {
            page_data[offset + i] = bytes[i];
            i += 1;
        }
        let erased = self.block_erase_page(page);
        if let Err(error) = erased {
            return Err(error);
        }
        let ghost blank = self.flc.memory();
        let written = self.block_write_range(start, page_data.as_slice());
        proof {
            if written is Ok {
                assert(self.flc.memory() =~= overlaid(before, address.0 as int, bytes@));
            }
            if written is Err {
                let now = self.flc.memory();
                assert forall|k: int|
                    0 <= k < before.len() && !(page.spec_location() <= k < page.spec_end())
                    implies now[k] == before[k] by {
                    assert(now[k] == blank[k]);
                }
            }
        }
        written
    }
}

impl<X: CommandExecutor> ReadWrite for Flash<X> {
    type Error = FlashError;

    type Address = Address;

    /// The controller drives a flash with the pages of this family.
    open spec fn inv(&self) -> bool {
        &&& self.flc.inv()
        &&& self.flc.block_size() == PAGE_SIZE
        &&& self.flc.memory().len() == MEMORY_SIZE
    }

    open spec fn patience(&self) -> nat {
        self.flc.pending()
    }

    open spec fn contents(&self) -> Option<(nat, Seq<u8>)> {
        Some((0nat, self.flc.memory()))
    }

    open spec fn transfer_size() -> nat {
        TRANSFER_SIZE as nat
    }

    fn label() -> (label: &'static str)
        ensures
            label == "MAX3263 flash (internal)",
    {
        "MAX3263 flash (internal)"
    }

    /// Fills `bytes` with what the flash holds from `address` on. The
    /// flash is read whether or not the controller is busy.
    fn read(&mut self, address: Address, bytes: &mut [u8]) -> (result: Result<
        (),
        nb::Error<FlashError>,
    >)
        ensures
            final(self).flc == old(self).flc,
            result is Ok == reachable(address, old(bytes)@.len()),
            match result {
                Ok(()) => final(bytes)@ == final(self).flc.memory().subrange(
                    address.0 as int,
                    address.0 + old(bytes)@.len(),
                ),
                Err(error) => {
                    &&& error == nb::Error::Other(FlashError::AddressOutOfRange)
                    &&& final(bytes)@ == old(bytes)@
                },
            },
    {
        if bytes.len() > MEMORY_SIZE as usize || address.0 > MEMORY_SIZE - bytes.len() as u32 {
            return Err(nb::Error::Other(FlashError::AddressOutOfRange));
        }
        self.flc.read(address.0, bytes);
        Ok(())
    }

    /// Makes the flash hold `bytes` from `address` on: every page that
    /// holds some of the bytes is read, erased and programmed again, by
    /// ascending address. Bad alignment is turned down first, then a busy
    /// controller, then bytes that the flash has no room for. A write that
    /// fails on the way leaves the pages before the failure written and those
    /// after it as they were.
    fn write(&mut self, address: Address, bytes: &[u8]) -> (result: Result<
        (),
        nb::Error<FlashError>,
    >)
        ensures
            final(self).flc.reliable() == old(self).flc.reliable(),
            (result == Err::<(), nb::Error<FlashError>>(nb::Error::Other(FlashError::UnalignedAccess)))
                == !aligned(address, bytes@.len()),
            (result is Err && result->Err_0 is WouldBlock) == (aligned(address, bytes@.len())
                && old(self).flc.pending() > 0),
            (result == Err::<(), nb::Error<FlashError>>(
                nb::Error::Other(FlashError::AddressOutOfRange),
            )) == (old(self).flc.pending() == 0 && aligned(address, bytes@.len()) && !reachable(
                address,
                bytes@.len(),
            )),
            old(self).flc.reliable() && old(self).flc.pending() == 0 && aligned(
                address,
                bytes@.len(),
            ) && reachable(address, bytes@.len()) ==> result is Ok,
            aligned(address, bytes@.len()) && !(result is Err && result->Err_0 is WouldBlock)
                ==> final(self).flc.pending() == 0,
            match result {
                Ok(()) => final(self).flc.memory() == overlaid(
                    old(self).flc.memory(),
                    address.0 as int,
                    bytes@,
                ),
                Err(nb::Error::WouldBlock) => final(self).flc.memory() == old(self).flc.memory(),
                Err(nb::Error::Other(FlashError::UnalignedAccess)) => {
                    &&& final(self).flc.memory() == old(self).flc.memory()
                    &&& final(self).flc.pending() == old(self).flc.pending()
                },
                Err(nb::Error::Other(FlashError::AddressOutOfRange)) => final(self).flc.memory()
                    == old(self).flc.memory(),
                Err(nb::Error::Other(FlashError::PageEraseFailed)) => {
                    &&& same_in_other_pages(
                        old(self).flc.memory(),
                        final(self).flc.memory(),
                        address.0 as int,
                        bytes@.len() as int,
                    )
                    &&& written_up_to_a_block(
                        old(self).flc.memory(),
                        final(self).flc.memory(),
                        address.0 as int,
                        bytes@,
                        PAGE_SIZE as int,
                    )
                },
                Err(nb::Error::Other(FlashError::WriteFailed)) => {
                    &&& same_in_other_pages(
                        old(self).flc.memory(),
                        final(self).flc.memory(),
                        address.0 as int,
                        bytes@.len() as int,
                    )
                    &&& written_up_to_a_block(
                        old(self).flc.memory(),
                        final(self).flc.memory(),
                        address.0 as int,
                        bytes@,
                        PAGE_SIZE as int,
                    )
                },
                Err(nb::Error::Other(_)) => false,
            },
    {
        let is_start_aligned = address.0 & 0b11 == 0;
        let is_end_aligned = bytes.len() & 0b11 == 0;
        proof {
            let start = address.0;
            let len = bytes.len();
            assert((start & 0b11 == 0) == (start % 4 == 0)) by (bit_vector);
            assert((len & 0b11 == 0) == (len % 4 == 0)) by (bit_vector);
        }
        if !is_start_aligned || !is_end_aligned {
            return Err(nb::Error::Other(FlashError::UnalignedAccess));
        }
        if self.flc.is_busy() {
            return Err(nb::Error::WouldBlock);
        }
        if bytes.len() > MEMORY_SIZE as usize || address.0 > MEMORY_SIZE - bytes.len() as u32 {
            return Err(nb::Error::Other(FlashError::AddressOutOfRange));
        }
        let ghost before = self.flc.memory();
        let pages = PageMap::pages();
        let pieces = memory::overlaps(pages.as_slice(), bytes.len(), address);
        let ghost bounds = pages_of_flash();
        proof {
            assert(memory::spans::<Address, Page>(pages@) =~= bounds);
            lemma_pages_are_contiguous();
            memory::lemma_overlaps_fit(bounds, address.0 as nat, bytes@.len());
            memory::lemma_overlaps_tile(bounds, address.0 as nat, bytes@.len());
            reveal(memory::tiles);
            assert(bytes@.take(0) =~= Seq::<u8>::empty());
            assert(before =~= overlaid(before, address.0 as int, bytes@.take(0)));
        }
        let mut i: usize = 0;
        while i < pieces.len()
            invariant
                self.inv(),
                self.flc.reliable() == old(self).flc.reliable(),
                self.flc.pending() == 0,
                old(self).flc.pending() == 0,
                before == old(self).flc.memory(),
                before.len() == MEMORY_SIZE,
                aligned(address, bytes@.len()),
                reachable(address, bytes@.len()),
                i <= pieces@.len(),
                pages@.len() == PAGE_COUNT,
                bounds == pages_of_flash(),
                bounds == memory::spans::<Address, Page>(pages@),
                pieces@ == memory::overlaps_of(bounds, address.0 as nat, bytes@.len()),
                memory::tiles(pieces@, bounds, address.0 as nat, 0, bytes@.len()),
                forall|k: int|
                    0 <= k < pieces@.len() ==> memory::fits(
                        #[trigger] pieces@[k],
                        bounds,
                        address.0 as nat,
                    ) && pieces@[k].end <= bytes@.len(),
                self.flc.memory() == overlaid(
                    before,
                    address.0 as int,
                    bytes@.take(
                        if i < pieces@.len() {
                            pieces@[i as int].start as int
                        } else {
                            bytes@.len() as int
                        },
                    ),
                ),
            decreases pieces@.len() - i,
        {
            let piece = pieces[i];
            let ghost middle = self.flc.memory();
            proof {
                reveal(memory::tiles);
                assert(memory::fits(piece, bounds, address.0 as nat));
                if i + 1 < pieces@.len() {
                    assert(memory::continues(pieces@, i + 1));
                } else {
                    assert(pieces@.last() == piece);
                }
            }
            let page = pages[piece.block];
            let chunk = slice_subrange(bytes, piece.start, piece.end);
            let rewritten = self.rewrite_page(page, chunk, Address(piece.address));
            proof {
                let now = self.flc.memory();
                if rewritten is Ok {
                    lemma_write_piecewise(
                        before,
                        address.0 as int,
                        bytes@,
                        piece.start as int,
                        piece.end as int,
                    );
                } else {
                    assert forall|k: int|
                        0 <= k < before.len() && !in_touched_page(
                            k,
                            address.0 as int,
                            bytes@.len() as int,
                        ) implies now[k] == before[k] by {
                        lemma_page_start(k, piece.block as int);
                        assert(now[k] == middle[k]);
                        assert(middle[k] == before[k]);
                    }
                    assert(stopped_in(
                        before,
                        now,
                        address.0 as int,
                        bytes@,
                        PAGE_SIZE as int,
                        piece.start as int,
                        piece.block as int,
                    ));
                }
            }
            if let Err(error) = rewritten {
                return Err(nb::Error::Other(error));
            }
            i += 1;
        }
        proof {
            assert(bytes@.take(bytes@.len() as int) =~= bytes@);
        }
        Ok(())
    }

    fn range(&self) -> (range: (Address, Address))
        ensures
            range.0 == Address(0),
            range.1 == Address(MEMORY_SIZE),
    {
        (Address(0x0000_0000), Address(MEMORY_SIZE))
    }

    /// Erases the whole flash and waits until the controller has done so.
    fn erase(&mut self) -> (result: Result<(), nb::Error<FlashError>>)
        ensures
            final(self).flc.reliable() == old(self).flc.reliable(),
            (result is Err && result->Err_0 is WouldBlock) == (old(self).flc.pending() > 0),
            old(self).flc.reliable() && old(self).flc.pending() == 0 ==> result is Ok,
            !(result is Err && result->Err_0 is WouldBlock) ==> final(self).flc.fault() is None,
            match result {
                Ok(()) => {
                    &&& final(self).flc.pending() == 0
                    &&& final(self).flc.memory() == erased(
                        old(self).flc.memory(),
                        0,
                        MEMORY_SIZE as int,
                    )
                },
                Err(nb::Error::WouldBlock) => final(self).flc.memory() == old(self).flc.memory(),
                Err(nb::Error::Other(FlashError::MassEraseFailed)) => final(self).flc.pending()
                    == 0,
                Err(nb::Error::Other(_)) => false,
            },
    {
        if self.flc.is_busy() {
            return Err(nb::Error::WouldBlock);
        }
        let _ = self.flc.take_fault();
        self.flc.erase_all();
        wait_until_not_busy(&mut self.flc);
        match self.flc.take_fault() {
            Some(_) => Err(nb::Error::Other(FlashError::MassEraseFailed)),
            None => Ok(()),
        }
    }

    /// Passes the blocks on in transfers of `TRANSFER_SIZE` bytes, and what
    /// is left in one more transfer, which is written even where it is empty.
    fn write_from_blocks<const N: usize>(&mut self, address: Address, blocks: &[[u8; N]]) -> (result:
        Result<(), FlashError>)
        ensures
            final(self).flc.reliable() == old(self).flc.reliable(),
            old(self).flc.reliable() && aligned(address, (blocks@.len() * N) as nat) && reachable(
                address,
                (blocks@.len() * N) as nat,
            ) ==> result is Ok,
            match result {
                Ok(()) => final(self).flc.memory() == overlaid(
                    old(self).flc.memory(),
                    address.0 as int,
                    flattened(blocks@),
                ),
                Err(_) => written_up_to_a_block(
                    old(self).flc.memory(),
                    final(self).flc.memory(),
                    address.0 as int,
                    flattened(blocks@),
                    PAGE_SIZE as int,
                ),
            },
    {
        let ghost before = self.flc.memory();
        let ghost bytes = flattened(blocks@);
        let chunks = transfers(blocks, TRANSFER_SIZE);
        let mut offset: usize = 0;
        let mut c: usize = 0;
        proof {
            assert(bytes.take(0) =~= Seq::<u8>::empty());
            assert(before =~= overlaid(before, address.0 as int, bytes.take(0)));
        }
        while c < chunks.len()
            invariant
                self.inv(),
                self.flc.reliable() == old(self).flc.reliable(),
                before == old(self).flc.memory(),
                before.len() == MEMORY_SIZE,
                c <= chunks@.len(),
                bytes == flattened(blocks@),
                bytes.len() == blocks@.len() * N,
                address.0 + bytes.len() <= u32::MAX,
                cut_into(chunks@, bytes, TRANSFER_SIZE as nat),
                c < chunks@.len() ==> offset == c * TRANSFER_SIZE,
                c == chunks@.len() ==> offset == bytes.len(),
                c > 0 ==> self.flc.pending() == 0,
                offset <= bytes.len(),
                self.flc.memory() == overlaid(before, address.0 as int, bytes.take(offset as int)),
            decreases chunks@.len() - c,
        {
            let chunk = chunks[c].as_slice();
            proof {
                if c < chunks@.len() - 1 {
                    assert(chunk@ == bytes.subrange(
                        c * TRANSFER_SIZE,
                        c * TRANSFER_SIZE + TRANSFER_SIZE as nat,
                    ));
                }
                assert(chunk@ == bytes.subrange(offset as int, offset + chunk@.len()));
                assert(offset % 4 == 0 && (offset + chunk@.len() == bytes.len() || chunk@.len()
                    == TRANSFER_SIZE));
            }
            let target = Address(address.0 + offset as u32);
            loop
                invariant_except_break
                    self.flc.memory() == overlaid(
                        before,
                        address.0 as int,
                        bytes.take(offset as int),
                    ),
                invariant
                    self.inv(),
                    self.flc.reliable() == old(self).flc.reliable(),
                    target.0 + chunk@.len() <= u32::MAX,
                    target.0 == address.0 + offset,
                    before == old(self).flc.memory(),
                    before.len() == MEMORY_SIZE,
                    offset % 4 == 0,
                    offset + chunk@.len() <= bytes.len(),
                    offset + chunk@.len() == bytes.len() || chunk@.len() == TRANSFER_SIZE,
                    chunk@ == bytes.subrange(offset as int, offset + chunk@.len()),
                    bytes == flattened(blocks@),
                    bytes.len() == blocks@.len() * N,
                ensures
                    self.flc.pending() == 0,
                    self.flc.memory() == overlaid(
                        overlaid(before, address.0 as int, bytes.take(offset as int)),
                        target.0 as int,
                        chunk@,
                    ),
                decreases self.flc.pending(),
            {
                let ghost middle = self.flc.memory();
                let written = self.write(target, chunk);
                proof {
                    if written is Err && !(written->Err_0 is WouldBlock) {
                        let now = self.flc.memory();
                        if now == middle {
                            lemma_stopped_before(
                                before,
                                now,
                                address.0 as int,
                                bytes,
                                offset as int,
                                PAGE_SIZE as int,
                            );
                        } else {
                            lemma_transfer_stopped(
                                before,
                                middle,
                                now,
                                address.0 as int,
                                bytes,
                                offset as int,
                                chunk@,
                                PAGE_SIZE as int,
                            );
                        }
                    }
                }
                match written {
                    Ok(()) => {
                        break ;
                    },
                    Err(nb::Error::WouldBlock) => {},
                    Err(nb::Error::Other(error)) => {
                        return Err(error);
                    },
                }
            }
            proof {
                lemma_write_piecewise(
                    before,
                    address.0 as int,
                    bytes,
                    offset as int,
                    offset + chunk@.len(),
                );
            }
            offset += chunk.len();
            c += 1;
        }
        proof {
            assert(bytes.take(bytes.len() as int) =~= bytes);
        }
        Ok(())
    }
}

} // verus!
