//! Driver for the Micron N25Q128A, a NOR flash chip of 16 MiB behind a QSPI
//! bus, and the memory map of the chip.
use crate::drivers::micron::n25q128a_chip::Chip;
use crate::drivers::micron::n25q128a_chip::erases;
use crate::drivers::micron::n25q128a_chip::history;
use crate::drivers::micron::n25q128a_chip::lemma_erase_erases;
use crate::drivers::micron::n25q128a_chip::lemma_polls_before;
use crate::drivers::micron::n25q128a_chip::lemma_read_reads;
use crate::drivers::micron::n25q128a_chip::lemma_transfers_write;
use crate::drivers::micron::n25q128a_chip::lemma_write_writes;
use crate::drivers::micron::n25q128a_chip::reads;
use crate::drivers::micron::n25q128a_chip::writes;
use crate::hal::flash::ReadWrite;
use crate::hal::flash::cut_into;
use crate::hal::flash::flattened;
use crate::hal::flash::transfers;
use crate::hal::qspi::CommandView;
use crate::hal::qspi::Data;
use crate::hal::qspi::DataView;
use crate::hal::qspi::Exchange;
use crate::hal::qspi::Indirect;
use crate::hal::qspi::Outcome;
use crate::hal::qspi::QSPICommand;
use crate::hal::qspi::answered_from;
use crate::hal::qspi::brought;
use crate::hal::qspi::found_busy;
use crate::hal::qspi::left_after;
use crate::hal::qspi::same_shape;
use crate::hal::time::Milliseconds;
use crate::hal::time::Now;
use crate::hal::time::elapsed;
use crate::utilities::bitwise::bit_is_set;
use crate::utilities::bitwise::is_bit_subset;
use crate::utilities::bitwise::is_subset_of;
use crate::utilities::bitwise::is_set;
use crate::utilities::memory;
use crate::utilities::memory::Region;
use core::marker::PhantomData;
use vstd::prelude::*;
use vstd::slice::slice_subrange;
use vstd::slice::slice_to_vec;
use vstd::std_specs::ops::AddSpecImpl;
use vstd::std_specs::ops::SubSpecImpl;
use vstd::std_specs::convert::IntoSpecImpl;

verus! {

/// The manufacturer id that a Micron chip answers with.
pub const MANUFACTURER_ID: u8 = 0x20;

/// Position of the first byte of the chip in its own address space.
pub const BASE_ADDRESS: u32 = 0x0000_0000;

pub const PAGES_PER_SUBSECTOR: usize = 16;

pub const SUBSECTORS_PER_SECTOR: usize = 16;

pub const PAGES_PER_SECTOR: usize = 256;

/// Bytes in a page.
pub const PAGE_SIZE: usize = 256;

/// Bytes in a subsector.
pub const SUBSECTOR_SIZE: usize = 4096;

/// Bytes in a sector.
pub const SECTOR_SIZE: usize = 65536;

/// Bytes in the chip.
pub const MEMORY_SIZE: usize = 16777216;

pub const NUMBER_OF_SECTORS: usize = 256;

pub const NUMBER_OF_SUBSECTORS: usize = 4096;

pub const NUMBER_OF_PAGES: usize = 65536;

/// How the sizes and counts of the memory map follow from the size of a
/// page, the pages in a subsector, the subsectors in a sector and the number
/// of sectors.
pub proof fn lemma_geometry()
    ensures
        PAGES_PER_SECTOR == PAGES_PER_SUBSECTOR * SUBSECTORS_PER_SECTOR,
        SUBSECTOR_SIZE == PAGE_SIZE * PAGES_PER_SUBSECTOR,
        SECTOR_SIZE == SUBSECTOR_SIZE * SUBSECTORS_PER_SECTOR,
        MEMORY_SIZE == NUMBER_OF_SECTORS * SECTOR_SIZE,
        NUMBER_OF_SUBSECTORS == NUMBER_OF_SECTORS * SUBSECTORS_PER_SECTOR,
        NUMBER_OF_PAGES == NUMBER_OF_SUBSECTORS * PAGES_PER_SUBSECTOR,
        NUMBER_OF_PAGES == MEMORY_SIZE / PAGE_SIZE,
{
}

/// Address into the memory of the chip.
#[derive(Default, Copy, Clone, Debug, PartialOrd, PartialEq, Eq, Ord, Structural)]
pub struct Address(pub u32);

impl core::ops::Add<usize> for Address {
    type Output = Address;

    /// The address `rhs` bytes further on.
    fn add(self, rhs: usize) -> (sum: Address) {
        Address(self.0 + rhs as u32)
    }
}

impl AddSpecImpl<usize> for Address {
    open spec fn obeys_add_spec() -> bool {
        true
    }

    open spec fn add_req(self, rhs: usize) -> bool {
        self.0 + rhs <= u32::MAX
    }

    open spec fn add_spec(self, rhs: usize) -> Address {
        Address((self.0 + rhs) as u32)
    }
}

impl core::ops::Sub<usize> for Address {
    type Output = Address;

    /// The address `rhs` bytes back, or the first address where there are
    /// not that many before this one.
    fn sub(self, rhs: usize) -> (difference: Address) {
        if rhs >= self.0 as usize {
            Address(0)
        } else {
            Address(self.0 - rhs as u32)
        }
    }
}

impl SubSpecImpl<usize> for Address {
    open spec fn obeys_sub_spec() -> bool {
        true
    }

    open spec fn sub_req(self, rhs: usize) -> bool {
        true
    }

    open spec fn sub_spec(self, rhs: usize) -> Address {
        if rhs >= self.0 {
            Address(0)
        } else {
            Address((self.0 - rhs) as u32)
        }
    }
}

impl core::ops::Sub<Address> for Address {
    type Output = usize;

    /// The number of bytes from `rhs` up to this address, or zero where
    /// `rhs` lies behind it.
    fn sub(self, rhs: Address) -> (distance: usize) {
        if rhs.0 >= self.0 {
            0
        } else {
            (self.0 - rhs.0) as usize
        }
    }
}

impl SubSpecImpl<Address> for Address {
    open spec fn obeys_sub_spec() -> bool {
        true
    }

    open spec fn sub_req(self, rhs: Address) -> bool {
        true
    }

    open spec fn sub_spec(self, rhs: Address) -> usize {
        if rhs.0 >= self.0 {
            0
        } else {
            (self.0 - rhs.0) as usize
        }
    }
}

impl Into<usize> for Address {
    fn into(self) -> (value: usize) {
        self.0 as usize
    }
}

impl IntoSpecImpl<usize> for Address {
    open spec fn obeys_into_spec() -> bool {
        true
    }

    open spec fn into_spec(self) -> usize {
        self.0 as usize
    }
}

impl memory::Address for Address {
    open spec fn spec_offset(self) -> nat {
        self.0 as nat
    }

    fn offset(self) -> (offset: u32) {
        self.0
    }

    fn forward(self, distance: usize) -> (address: Address) {
        Address(self.0 + distance as u32)
    }
}

/// The memory of the whole chip: sectors, which hold subsectors, which hold
/// pages.
pub struct MemoryMap {}

/// A sector of the chip: the unit of the sector erase command.
#[derive(Clone, Copy, Debug)]
pub struct Sector(usize);

/// A subsector of the chip.
#[derive(Clone, Copy, Debug)]
pub struct Subsector(usize);

/// A page of the chip: the unit of the page program command.
#[derive(Clone, Copy, Debug)]
pub struct Page(usize);

impl MemoryMap {
    /// Every sector of the chip, by ascending address.
    pub fn sectors() -> (sectors: Vec<Sector>)
        ensures
            sectors@.len() == NUMBER_OF_SECTORS,
            forall|i: int| 0 <= i < sectors@.len() ==> (#[trigger] sectors@[i]).spec_index() == i,
    {
        let mut sectors: Vec<Sector> = Vec::new();
        let mut index: usize = 0;
        while index < NUMBER_OF_SECTORS
            invariant
                index <= NUMBER_OF_SECTORS,
                sectors@.len() == index,
                forall|i: int| 0 <= i < index ==> (#[trigger] sectors@[i]).spec_index() == i,
            decreases NUMBER_OF_SECTORS - index,
        {
            sectors.push(Sector(index));
            index += 1;
        }
        sectors
    }

    /// Every subsector of the chip, by ascending address.
    pub fn subsectors() -> (subsectors: Vec<Subsector>)
        ensures
            subsectors@.len() == NUMBER_OF_SUBSECTORS,
            forall|i: int|
                0 <= i < subsectors@.len() ==> (#[trigger] subsectors@[i]).spec_index() == i,
    {
        let mut subsectors: Vec<Subsector> = Vec::new();
        let mut index: usize = 0;
        while index < NUMBER_OF_SUBSECTORS
            invariant
                index <= NUMBER_OF_SUBSECTORS,
                subsectors@.len() == index,
                forall|i: int| 0 <= i < index ==> (#[trigger] subsectors@[i]).spec_index() == i,
            decreases NUMBER_OF_SUBSECTORS - index,
        {
            subsectors.push(Subsector(index));
            index += 1;
        }
        subsectors
    }

    /// Every page of the chip, by ascending address.
    pub fn pages() -> (pages: Vec<Page>)
        ensures
            pages@.len() == NUMBER_OF_PAGES,
            pages@.len() == MEMORY_SIZE / PAGE_SIZE,
            forall|i: int| 0 <= i < pages@.len() ==> (#[trigger] pages@[i]).spec_index() == i,
    {
        let mut pages: Vec<Page> = Vec::new();
        let mut index: usize = 0;
        while index < NUMBER_OF_PAGES
            invariant
                index <= NUMBER_OF_PAGES,
                pages@.len() == index,
                forall|i: int| 0 <= i < index ==> (#[trigger] pages@[i]).spec_index() == i,
            decreases NUMBER_OF_PAGES - index,
        {
            pages.push(Page(index));
            index += 1;
        }
        pages
    }

    /// Address of the first byte of the chip.
    pub fn location() -> (address: Address)
        ensures
            address == Address(BASE_ADDRESS),
    {
        Address(BASE_ADDRESS)
    }

    /// Address past the last byte of the chip.
    pub fn end() -> (address: Address)
        ensures
            address.0 == BASE_ADDRESS + MEMORY_SIZE,
    {
        Address(BASE_ADDRESS + MEMORY_SIZE as u32)
    }

    /// Number of bytes that the chip holds.
    pub fn size() -> (size: usize)
        ensures
            size == MEMORY_SIZE,
    {
        MEMORY_SIZE
    }
}

impl Sector {
    /// Number of the sector, counted from the start of the chip.
    pub closed spec fn spec_index(&self) -> nat {
        self.0 as nat
    }

    /// Whether the chip has a sector of this number.
    pub open spec fn valid(&self) -> bool {
        self.spec_index() < NUMBER_OF_SECTORS
    }

    #[verifier::type_invariant]
    spec fn is_on_chip(self) -> bool {
        self.valid()
    }

    /// Whether page number `page` of the chip belongs to this sector.
    pub open spec fn holds_page(&self, page: nat) -> bool {
        self.spec_index() * PAGES_PER_SECTOR <= page < (self.spec_index() + 1) * PAGES_PER_SECTOR
    }

    /// Whether subsector number `subsector` of the chip belongs to this
    /// sector.
    pub open spec fn holds_subsector(&self, subsector: nat) -> bool {
        self.spec_index() * SUBSECTORS_PER_SECTOR <= subsector < (self.spec_index() + 1)
            * SUBSECTORS_PER_SECTOR
    }

    pub fn index(&self) -> (index: usize)
        ensures
            index == self.spec_index(),
            self.valid(),
    {
        proof {
            use_type_invariant(self);
        }
        self.0
    }

    /// The subsectors of this sector, by ascending address.
    pub fn subsectors(&self) -> (subsectors: Vec<Subsector>)
        ensures
            subsectors@.len() == SUBSECTORS_PER_SECTOR,
            forall|i: int|
                0 <= i < subsectors@.len() ==> (#[trigger] subsectors@[i]).spec_index()
                    == self.spec_index() * SUBSECTORS_PER_SECTOR + i,
            forall|i: int|
                0 <= i < subsectors@.len() ==> self.holds_subsector(
                    (#[trigger] subsectors@[i]).spec_index(),
                ),
    {
        proof {
            use_type_invariant(self);
        }
        let first = self.0 * SUBSECTORS_PER_SECTOR;
        let mut subsectors: Vec<Subsector> = Vec::new();
        let mut count: usize = 0;
        while count < SUBSECTORS_PER_SECTOR
            invariant
                count <= SUBSECTORS_PER_SECTOR,
                first == self.spec_index() * SUBSECTORS_PER_SECTOR,
                self.valid(),
                subsectors@.len() == count,
                forall|i: int|
                    0 <= i < count ==> (#[trigger] subsectors@[i]).spec_index() == first + i,
            decreases SUBSECTORS_PER_SECTOR - count,
        {
            subsectors.push(Subsector(first + count));
            count += 1;
        }
        subsectors
    }

    /// The pages of this sector, by ascending address.
    pub fn pages(&self) -> (pages: Vec<Page>)
        ensures
            pages@.len() == PAGES_PER_SECTOR,
            forall|i: int|
                0 <= i < pages@.len() ==> (#[trigger] pages@[i]).spec_index() == self.spec_index()
                    * PAGES_PER_SECTOR + i,
            forall|i: int|
                0 <= i < pages@.len() ==> self.holds_page((#[trigger] pages@[i]).spec_index()),
    {
        proof {
            use_type_invariant(self);
        }
        let first = self.0 * PAGES_PER_SECTOR;
        let mut pages: Vec<Page> = Vec::new();
        let mut count: usize = 0;
        while count < PAGES_PER_SECTOR
            invariant
                count <= PAGES_PER_SECTOR,
                first == self.spec_index() * PAGES_PER_SECTOR,
                self.valid(),
                pages@.len() == count,
                forall|i: int| 0 <= i < count ==> (#[trigger] pages@[i]).spec_index() == first + i,
            decreases PAGES_PER_SECTOR - count,
        {
            pages.push(Page(first + count));
            count += 1;
        }
        pages
    }

    /// Address of the first byte of the sector.
    pub fn location(&self) -> (address: Address)
        ensures
            address.0 == self.spec_location(),
    {
        proof {
            use_type_invariant(self);
        }
        Address(BASE_ADDRESS + (self.0 * SECTOR_SIZE) as u32)
    }

    /// Address past the last byte of the sector.
    pub fn end(&self) -> (address: Address)
        ensures
            address.0 == self.spec_end(),
    {
        proof {
            use_type_invariant(self);
        }
        Address(BASE_ADDRESS + (self.0 * SECTOR_SIZE + SECTOR_SIZE) as u32)
    }

    /// The sector that holds `address`, if the chip has such an address.
    pub fn at(address: Address) -> (found: Option<Sector>)
        ensures
            match found {
                Some(sector) => sector.valid() && memory::covers(&sector, address),
                None => !memory::covers(&MemoryMap {  }, address),
            },
    {
        if address.0 >= BASE_ADDRESS + MEMORY_SIZE as u32 {
            None
        } else {
            Some(Sector((address.0 - BASE_ADDRESS) as usize / SECTOR_SIZE))
        }
    }

    /// Number of bytes in a sector.
    pub fn size() -> (size: usize)
        ensures
            size == SECTOR_SIZE,
    {
        SECTOR_SIZE
    }
}

impl Subsector {
    /// Number of the subsector, counted from the start of the chip.
    pub closed spec fn spec_index(&self) -> nat {
        self.0 as nat
    }

    /// Whether the chip has a subsector of this number.
    pub open spec fn valid(&self) -> bool {
        self.spec_index() < NUMBER_OF_SUBSECTORS
    }

    #[verifier::type_invariant]
    spec fn is_on_chip(self) -> bool {
        self.valid()
    }

    /// Whether page number `page` of the chip belongs to this subsector.
    pub open spec fn holds_page(&self, page: nat) -> bool {
        self.spec_index() * PAGES_PER_SUBSECTOR <= page < (self.spec_index() + 1)
            * PAGES_PER_SUBSECTOR
    }

    pub fn index(&self) -> (index: usize)
        ensures
            index == self.spec_index(),
            self.valid(),
    {
        proof {
            use_type_invariant(self);
        }
        self.0
    }

    /// The pages of this subsector, by ascending address.
    pub fn pages(&self) -> (pages: Vec<Page>)
        ensures
            pages@.len() == PAGES_PER_SUBSECTOR,
            forall|i: int|
                0 <= i < pages@.len() ==> (#[trigger] pages@[i]).spec_index() == self.spec_index()
                    * PAGES_PER_SUBSECTOR + i,
            forall|i: int|
                0 <= i < pages@.len() ==> self.holds_page((#[trigger] pages@[i]).spec_index()),
    {
        proof {
            use_type_invariant(self);
        }
        let first = self.0 * PAGES_PER_SUBSECTOR;
        let mut pages: Vec<Page> = Vec::new();
        let mut count: usize = 0;
        while count < PAGES_PER_SUBSECTOR
            invariant
                count <= PAGES_PER_SUBSECTOR,
                first == self.spec_index() * PAGES_PER_SUBSECTOR,
                self.valid(),
                pages@.len() == count,
                forall|i: int| 0 <= i < count ==> (#[trigger] pages@[i]).spec_index() == first + i,
            decreases PAGES_PER_SUBSECTOR - count,
        {
            pages.push(Page(first + count));
            count += 1;
        }
        pages
    }

    /// Address of the first byte of the subsector.
    pub fn location(&self) -> (address: Address)
        ensures
            address.0 == self.spec_location(),
    {
        proof {
            use_type_invariant(self);
        }
        Address(BASE_ADDRESS + (self.0 * SUBSECTOR_SIZE) as u32)
    }

    /// Address past the last byte of the subsector.
    pub fn end(&self) -> (address: Address)
        ensures
            address.0 == self.spec_end(),
    {
        proof {
            use_type_invariant(self);
        }
        Address(BASE_ADDRESS + (self.0 * SUBSECTOR_SIZE + SUBSECTOR_SIZE) as u32)
    }

    /// The subsector that holds `address`, if the chip has such an address.
    pub fn at(address: Address) -> (found: Option<Subsector>)
        ensures
            match found {
                Some(subsector) => subsector.valid() && memory::covers(&subsector, address),
                None => !memory::covers(&MemoryMap {  }, address),
            },
    {
        if address.0 >= BASE_ADDRESS + MEMORY_SIZE as u32 {
            None
        } else {
            Some(Subsector((address.0 - BASE_ADDRESS) as usize / SUBSECTOR_SIZE))
        }
    }

    /// Number of bytes in a subsector.
    pub fn size() -> (size: usize)
        ensures
            size == SUBSECTOR_SIZE,
    {
        SUBSECTOR_SIZE
    }
}

impl Page {
    /// Number of the page, counted from the start of the chip.
    pub closed spec fn spec_index(&self) -> nat {
        self.0 as nat
    }

    /// Whether the chip has a page of this number.
    pub open spec fn valid(&self) -> bool {
        self.spec_index() < NUMBER_OF_PAGES
    }

    #[verifier::type_invariant]
    spec fn is_on_chip(self) -> bool {
        self.valid()
    }

    pub fn index(&self) -> (index: usize)
        ensures
            index == self.spec_index(),
            self.valid(),
    {
        proof {
            use_type_invariant(self);
        }
        self.0
    }

    /// Address of the first byte of the page.
    pub fn location(&self) -> (address: Address)
        ensures
            address.0 == self.spec_location(),
    {
        proof {
            use_type_invariant(self);
        }
        Address(BASE_ADDRESS + (self.0 * PAGE_SIZE) as u32)
    }

    /// Address past the last byte of the page.
    pub fn end(&self) -> (address: Address)
        ensures
            address.0 == self.spec_end(),
    {
        proof {
            use_type_invariant(self);
        }
        Address(BASE_ADDRESS + (self.0 * PAGE_SIZE + PAGE_SIZE) as u32)
    }

    /// The page that holds `address`, if the chip has such an address.
    pub fn at(address: Address) -> (found: Option<Page>)
        ensures
            match found {
                Some(page) => page.valid() && memory::covers(&page, address),
                None => !memory::covers(&MemoryMap {  }, address),
            },
    {
        if address.0 >= BASE_ADDRESS + MEMORY_SIZE as u32 {
            None
        } else {
            Some(Page((address.0 - BASE_ADDRESS) as usize / PAGE_SIZE))
        }
    }

    /// Number of bytes in a page.
    pub fn size() -> (size: usize)
        ensures
            size == PAGE_SIZE,
    {
        PAGE_SIZE
    }
}

impl memory::Region<Address> for MemoryMap {
    open spec fn spec_location(&self) -> nat {
        BASE_ADDRESS as nat
    }

    open spec fn spec_end(&self) -> nat {
        (BASE_ADDRESS + MEMORY_SIZE) as nat
    }

    fn span(&self) -> (span: (u32, u32)) {
        (BASE_ADDRESS, BASE_ADDRESS + MEMORY_SIZE as u32)
    }

    fn contains(&self, address: Address) -> (inside: bool) {
        address.0 >= BASE_ADDRESS && address.0 < BASE_ADDRESS + MEMORY_SIZE as u32
    }
}

impl memory::Region<Address> for Sector {
    open spec fn spec_location(&self) -> nat {
        (BASE_ADDRESS + self.spec_index() * SECTOR_SIZE) as nat
    }

    open spec fn spec_end(&self) -> nat {
        (BASE_ADDRESS + (self.spec_index() + 1) * SECTOR_SIZE) as nat
    }

    fn span(&self) -> (span: (u32, u32)) {
        (self.location().0, self.end().0)
    }

    fn contains(&self, address: Address) -> (inside: bool) {
        address.0 >= self.location().0 && address.0 < self.end().0
    }
}

impl memory::Region<Address> for Subsector {
    open spec fn spec_location(&self) -> nat {
        (BASE_ADDRESS + self.spec_index() * SUBSECTOR_SIZE) as nat
    }

    open spec fn spec_end(&self) -> nat {
        (BASE_ADDRESS + (self.spec_index() + 1) * SUBSECTOR_SIZE) as nat
    }

    fn span(&self) -> (span: (u32, u32)) {
        (self.location().0, self.end().0)
    }

    fn contains(&self, address: Address) -> (inside: bool) {
        address.0 >= self.location().0 && address.0 < self.end().0
    }
}

impl memory::Region<Address> for Page {
    open spec fn spec_location(&self) -> nat {
        (BASE_ADDRESS + self.spec_index() * PAGE_SIZE) as nat
    }

    open spec fn spec_end(&self) -> nat {
        (BASE_ADDRESS + (self.spec_index() + 1) * PAGE_SIZE) as nat
    }

    fn span(&self) -> (span: (u32, u32)) {
        (self.location().0, self.end().0)
    }

    fn contains(&self, address: Address) -> (inside: bool) {
        address.0 >= self.location().0 && address.0 < self.end().0
    }
}

/// No address lies in two sectors.
pub proof fn lemma_sectors_do_not_overlap(a: Sector, b: Sector, address: Address)
    requires
        a.spec_index() != b.spec_index(),
    ensures
        !(memory::covers(&a, address) && memory::covers(&b, address)),
{
}

/// No address lies in two subsectors.
pub proof fn lemma_subsectors_do_not_overlap(a: Subsector, b: Subsector, address: Address)
    requires
        a.spec_index() != b.spec_index(),
    ensures
        !(memory::covers(&a, address) && memory::covers(&b, address)),
{
}

/// No address lies in two pages.
pub proof fn lemma_pages_do_not_overlap(a: Page, b: Page, address: Address)
    requires
        a.spec_index() != b.spec_index(),
    ensures
        !(memory::covers(&a, address) && memory::covers(&b, address)),
{
}

/// The pages of a subsector all belong to one sector, the sector whose
/// number is the subsector's divided by the number of subsectors in a sector,
/// and to no other.
pub proof fn lemma_subsector_lies_in_one_sector(subsector: Subsector, sector: Sector)
    ensures
        (forall|page: nat| subsector.holds_page(page) ==> sector.holds_page(page))
            <==> sector.spec_index() == subsector.spec_index() / SUBSECTORS_PER_SECTOR as nat,
{
    let first = (subsector.spec_index() * PAGES_PER_SUBSECTOR) as nat;
    assert(subsector.holds_page(first));
}

/// Each block begins where the block before it ends: sectors, subsectors and
/// pages each cover the chip without a gap.
pub proof fn lemma_blocks_are_contiguous(
    sectors: Seq<Sector>,
    subsectors: Seq<Subsector>,
    pages: Seq<Page>,
)
    requires
        forall|i: int| 0 <= i < sectors.len() ==> (#[trigger] sectors[i]).spec_index() == i,
        forall|i: int| 0 <= i < subsectors.len() ==> (#[trigger] subsectors[i]).spec_index() == i,
        forall|i: int| 0 <= i < pages.len() ==> (#[trigger] pages[i]).spec_index() == i,
    ensures
        memory::contiguous(memory::spans::<Address, Sector>(sectors)),
        memory::contiguous(memory::spans::<Address, Subsector>(subsectors)),
        memory::contiguous(memory::spans::<Address, Page>(pages)),
{
    let sector_spans = memory::spans::<Address, Sector>(sectors);
    assert forall|k: int| 0 < k < sector_spans.len() implies #[trigger] memory::adjoins(
        sector_spans,
        k,
    ) by {
        assert(sectors[k].spec_index() == k);
        assert(sectors[k - 1].spec_index() == k - 1);
    }
    let subsector_spans = memory::spans::<Address, Subsector>(subsectors);
    assert forall|k: int| 0 < k < subsector_spans.len() implies #[trigger] memory::adjoins(
        subsector_spans,
        k,
    ) by {
        assert(subsectors[k].spec_index() == k);
        assert(subsectors[k - 1].spec_index() == k - 1);
    }
    let page_spans = memory::spans::<Address, Page>(pages);
    assert forall|k: int| 0 < k < page_spans.len() implies #[trigger] memory::adjoins(
        page_spans,
        k,
    ) by {
        assert(pages[k].spec_index() == k);
        assert(pages[k - 1].spec_index() == k - 1);
    }
}

/// What can go wrong with the chip.
#[derive(Clone, Copy, Debug, PartialEq, Eq, Structural)]
pub enum FlashError {
    TimeOut,
    QspiError,
    WrongManufacturerId,
    MisalignedAccess,
    AddressOutOfRange,
}

/// The commands of the chip that the driver uses.
#[derive(Clone, Copy, Debug, PartialEq, Eq, Structural)]
pub enum Command {
    PageProgram,
    Read,
    WriteDisable,
    ReadStatus,
    WriteEnable,
    ReadId,
    BulkErase,
    SectorErase,
}

impl Command {
    /// The instruction byte of the command on the bus.
    pub open spec fn spec_opcode(self) -> u8 {
        match self {
            Command::PageProgram => 0x02,
            Command::Read => 0x03,
            Command::WriteDisable => 0x04,
            Command::ReadStatus => 0x05,
            Command::WriteEnable => 0x06,
            Command::ReadId => 0x9E,
            Command::BulkErase => 0xC7,
            Command::SectorErase => 0xD8,
        }
    }

    pub fn opcode(self) -> (opcode: u8)
        ensures
            opcode == self.spec_opcode(),
    {
        match self {
            Command::PageProgram => 0x02,
            Command::Read => 0x03,
            Command::WriteDisable => 0x04,
            Command::ReadStatus => 0x05,
            Command::WriteEnable => 0x06,
            Command::ReadId => 0x9E,
            Command::BulkErase => 0xC7,
            Command::SectorErase => 0xD8,
        }
    }
}

/// The status register of the chip.
#[derive(Clone, Copy, Debug, PartialEq, Eq, Structural)]
pub struct Status {
    /// A program or erase operation has not finished yet.
    pub write_in_progress: bool,
    /// The chip accepts a program or erase command.
    pub write_enable_latch: bool,
}

impl Status {
    /// Reads the status out of the byte that the chip answers a status read
    /// with: bit 0 is write-in-progress, bit 1 the write enable latch.
    pub fn from_byte(response: u8) -> (status: Status)
        ensures
            status.write_in_progress == bit_is_set(response, 0),
            status.write_enable_latch == bit_is_set(response, 1),
    {
        Status { write_in_progress: is_set(response, 0), write_enable_latch: is_set(response, 1) }
    }
}

/// The number inside an optional address.
pub open spec fn raw(address: Option<Address>) -> Option<u32> {
    match address {
        Some(address) => Some(address.0),
        None => None,
    }
}

/// How the driver puts a command of the chip on the bus: the instruction
/// byte, the address if the command has one, the data, no dummy cycles.
pub open spec fn on_the_bus(command: Command, address: Option<u32>, data: DataView) -> CommandView {
    CommandView { instruction: Some(command.spec_opcode()), address, data, dummy_cycles: 0 }
}

/// A read of one byte with the given command, into a cleared buffer.
pub open spec fn query(command: Command) -> CommandView {
    on_the_bus(command, None, DataView::Read(seq![0u8]))
}

/// Whether a command on the bus is a read of the status register.
pub open spec fn is_poll(sent: CommandView) -> bool {
    sent == query(Command::ReadStatus)
}

/// Whether an exchange brought back a status byte with write-in-progress
/// set.
pub open spec fn reports_busy(exchange: Exchange) -> bool {
    &&& exchange.outcome is Done
    &&& exchange.returned matches DataView::Read(response)
    &&& response.len() == 1
    &&& bit_is_set(response[0], 0)
}

/// The commands of a log other than the reads of the status register, in
/// order: what the driver asked of the chip, whether or not it was carried
/// out.
pub open spec fn sent(log: Seq<Exchange>) -> Seq<CommandView>
    decreases log.len(),
{
    if log.len() == 0 {
        Seq::empty()
    } else if is_poll(log.last().sent) {
        sent(log.drop_last())
    } else {
        sent(log.drop_last()).push(log.last().sent)
    }
}

/// Whether `after` is `before` with one more exchange, a read of the status
/// register.
pub open spec fn polled(before: Seq<Exchange>, after: Seq<Exchange>) -> bool {
    &&& after.len() == before.len() + 1
    &&& after.drop_last() == before
    &&& is_poll(after.last().sent)
}

/// Whether `after` continues `before`, and the first exchange it adds is a
/// read of the status register.
pub open spec fn began_with_poll(before: Seq<Exchange>, after: Seq<Exchange>) -> bool {
    &&& after.len() > before.len()
    &&& after.take(before.len() as int) == before
    &&& is_poll(after[before.len() as int].sent)
}

/// Whether every exchange of `log` from place `from` on was carried out.
pub open spec fn all_done(log: Seq<Exchange>, from: int) -> bool {
    forall|k: int| from <= k < log.len() ==> (#[trigger] log[k]).outcome is Done
}

/// Whether every exchange of `log` from place `from` on but the last was
/// carried out: an exchange that fails is the last of its operation.
pub open spec fn done_before_last(log: Seq<Exchange>, from: int) -> bool {
    forall|k: int| from <= k < log.len() - 1 ==> (#[trigger] log[k]).outcome is Done
}

/// Whether every exchange of `log` from place `from` on is a read of the
/// status register.
pub open spec fn only_polls(log: Seq<Exchange>, from: int) -> bool {
    forall|k: int| from <= k < log.len() ==> is_poll((#[trigger] log[k]).sent)
}

/// Exchanges that were carried out, and an operation after them whose
/// exchanges but the last were, leave no failure before the last exchange.
pub proof fn lemma_done_so_far(from: int, middle: Seq<Exchange>, after: Seq<Exchange>)
    requires
        0 <= from <= middle.len(),
        all_done(middle, from),
        extends(middle, after),
        done_before_last(after, middle.len() as int),
    ensures
        done_before_last(after, from),
        after.len() == middle.len() || after.last().outcome is Done ==> all_done(after, from),
        only_polls(middle, from) && only_polls(after, middle.len() as int) ==> only_polls(
            after,
            from,
        ),
{
    assert forall|k: int| from <= k < middle.len() implies after[k] == middle[k] by {
        assert(after.take(middle.len() as int)[k] == after[k]);
    }
}

/// Whether the exchanges added between two states of a log are those of
/// an operation that was carried out: a read of the status register that
/// found the chip idle, then `commands`, one after the other, and then the
/// reads of the status register with which the driver waited for the chip,
/// the last of which found it idle. No exchange failed.
pub open spec fn operated(
    before: Seq<Exchange>,
    after: Seq<Exchange>,
    commands: Seq<CommandView>,
) -> bool {
    &&& began_with_poll(before, after)
    &&& !reports_busy(after[before.len() as int])
    &&& after.len() > before.len() + 1 + commands.len()
    &&& forall|i: int|
        0 <= i < commands.len() ==> after[before.len() + 1 + i].sent == #[trigger] commands[i]
    &&& only_polls(after, (before.len() + 1 + commands.len()) as int)
    &&& all_done(after, before.len() as int)
    &&& !reports_busy(after.last())
}

/// The answers that are left of the queue `replies` after the exchanges
/// `added`.
pub open spec fn remaining(replies: Seq<Seq<u8>>, added: Seq<Exchange>) -> Seq<Seq<u8>>
    decreases added.len(),
{
    if added.len() == 0 {
        replies
    } else {
        left_after(added.last().sent.data, remaining(replies, added.drop_last()))
    }
}

/// Whether the exchanges `added` were all carried out and answered from
/// the queue `replies`, one after the other.
pub open spec fn served(replies: Seq<Seq<u8>>, added: Seq<Exchange>) -> bool
    decreases added.len(),
{
    added.len() == 0 || {
        &&& served(replies, added.drop_last())
        &&& added.last().outcome is Done
        &&& added.last().returned == answered_from(
            added.last().sent.data,
            remaining(replies, added.drop_last()),
        )
    }
}

/// Whether a peripheral that said what it would answer did so: the
/// exchanges added between two states of its log were carried out and
/// answered from the answers that it had, and the answers that it has now are
/// those that are left. Of a peripheral that said nothing, this says nothing.
pub open spec fn served_from(
    replies: Option<Seq<Seq<u8>>>,
    before: Seq<Exchange>,
    after: Seq<Exchange>,
    left: Option<Seq<Seq<u8>>>,
) -> bool {
    replies matches Some(queue) ==> served(queue, after.skip(before.len() as int)) && left == Some(
        remaining(queue, after.skip(before.len() as int)),
    )
}

/// One exchange that was carried out and answered from the queue was
/// answered from the queue.
pub proof fn lemma_served_one(
    replies: Option<Seq<Seq<u8>>>,
    before: Seq<Exchange>,
    exchange: Exchange,
    left: Option<Seq<Seq<u8>>>,
)
    requires
        replies matches Some(queue) ==> exchange.outcome is Done && exchange.returned
            == answered_from(exchange.sent.data, queue) && left == Some(
            left_after(exchange.sent.data, queue),
        ),
    ensures
        served_from(replies, before, before.push(exchange), left),
{
    if replies is Some {
        let queue = replies->Some_0;
        let added = before.push(exchange).skip(before.len() as int);
        assert(added =~= seq![exchange]);
        assert(added.drop_last() =~= Seq::<Exchange>::empty());
        assert(added.last() == exchange);
        assert(served(queue, added.drop_last()));
        assert(remaining(queue, added.drop_last()) == queue);
        assert(served(queue, added));
    }
}

/// The first exchange that a peripheral added which answers from a queue
/// was carried out and answered with the first answer of the queue.
pub proof fn lemma_first_served(
    replies: Seq<Seq<u8>>,
    before: Seq<Exchange>,
    after: Seq<Exchange>,
    left: Option<Seq<Seq<u8>>>,
)
    requires
        served_from(Some(replies), before, after, left),
        after.len() > before.len(),
    ensures
        after[before.len() as int].outcome is Done,
        after[before.len() as int].returned == answered_from(
            after[before.len() as int].sent.data,
            replies,
        ),
    decreases after.len(),
{
    let n = before.len() as int;
    let added = after.skip(n);
    if after.len() == before.len() + 1 {
        assert(added.drop_last() =~= Seq::<Exchange>::empty());
        assert(remaining(replies, added.drop_last()) == replies);
        assert(added.last() == after[n]);
    } else {
        let most = after.drop_last();
        assert(added.drop_last() =~= most.skip(n));
        lemma_first_served(replies, before, most, Some(remaining(replies, most.skip(n))));
    }
}

/// Exchanges that were answered from the queue, and further exchanges
/// that were answered from what was left of it, were answered from the queue.
pub proof fn lemma_served_both(
    replies: Option<Seq<Seq<u8>>>,
    before: Seq<Exchange>,
    middle: Seq<Exchange>,
    between: Option<Seq<Seq<u8>>>,
    after: Seq<Exchange>,
    left: Option<Seq<Seq<u8>>>,
)
    requires
        extends(before, middle),
        extends(middle, after),
        served_from(replies, before, middle, between),
        served_from(between, middle, after, left),
    ensures
        served_from(replies, before, after, left),
    decreases after.len() - middle.len(),
{
    if replies is Some {
        let queue = replies->Some_0;
        let rest = between->Some_0;
        let n = before.len() as int;
        let m = middle.len() as int;
        if after.len() == middle.len() {
            assert(after.take(m) =~= after);
            assert(after.skip(m) =~= Seq::<Exchange>::empty());
        } else {
            let most = after.drop_last();
            let added = after.skip(m);
            assert(added.drop_last() =~= most.skip(m));
            assert(most.take(m) =~= after.take(m));
            let earlier = Some(remaining(rest, most.skip(m)));
            lemma_served_both(replies, before, middle, between, most, earlier);
            assert(after.skip(n).drop_last() =~= most.skip(n));
            assert(after.skip(n).last() == after.last());
            assert(added.last() == after.last());
        }
    }
}

/// One more exchange adds its command to the commands sent, unless it is a
/// read of the status register.
pub proof fn lemma_sent_push(log: Seq<Exchange>, exchange: Exchange)
    ensures
        sent(log.push(exchange)) == if is_poll(exchange.sent) {
            sent(log)
        } else {
            sent(log).push(exchange.sent)
        },
{
    assert(log.push(exchange).drop_last() =~= log);
}

/// The commands of a log, in order, without the reads of the status
/// register that found the chip busy: the log without the reads that the
/// driver made again.
pub open spec fn trace(log: Seq<Exchange>) -> Seq<CommandView>
    decreases log.len(),
{
    if log.len() == 0 {
        Seq::empty()
    } else if is_poll(log.last().sent) && reports_busy(log.last()) {
        trace(log.drop_last())
    } else {
        trace(log.drop_last()).push(log.last().sent)
    }
}

/// One more exchange adds its command to the trace, unless it is a read
/// of the status register that found the chip busy.
pub proof fn lemma_trace_push(log: Seq<Exchange>, exchange: Exchange)
    ensures
        trace(log.push(exchange)) == if is_poll(exchange.sent) && reports_busy(exchange) {
            trace(log)
        } else {
            trace(log).push(exchange.sent)
        },
{
    assert(log.push(exchange).drop_last() =~= log);
}

/// A command with the read of the status register that the driver makes
/// for it: after the command where the chip takes time over it, as it does
/// over a program and an erase operation, and before it otherwise.
pub open spec fn around(command: CommandView) -> Seq<CommandView> {
    if command.instruction == Some(Command::PageProgram.spec_opcode()) || command.instruction
        == Some(Command::SectorErase.spec_opcode()) {
        seq![command, query(Command::ReadStatus)]
    } else {
        seq![query(Command::ReadStatus), command]
    }
}

/// Commands, each with its read of the status register.
pub open spec fn with_polls(commands: Seq<CommandView>) -> Seq<CommandView>
    decreases commands.len(),
{
    if commands.len() == 0 {
        Seq::empty()
    } else {
        with_polls(commands.drop_last()) + around(commands.last())
    }
}

/// The commands of two runs with their reads of the status register are
/// those of the first run and then those of the second.
pub proof fn lemma_with_polls_both(first: Seq<CommandView>, second: Seq<CommandView>)
    ensures
        with_polls(first + second) == with_polls(first) + with_polls(second),
    decreases second.len(),
{
    if second.len() == 0 {
        assert(first + second =~= first);
        assert(with_polls(first) + with_polls(second) =~= with_polls(first));
    } else {
        lemma_with_polls_both(first, second.drop_last());
        assert((first + second).drop_last() =~= first + second.drop_last());
        assert((first + second).last() == second.last());
        assert(with_polls(first + second) =~= with_polls(first) + with_polls(second));
    }
}

/// Two commands with their reads of the status register.
pub proof fn lemma_with_polls_two(first: CommandView, second: CommandView)
    ensures
        with_polls(seq![first]) == around(first),
        with_polls(seq![first, second]) == around(first) + around(second),
{
    let one = seq![first];
    let two = seq![first, second];
    assert(one.drop_last() =~= Seq::<CommandView>::empty());
    assert(with_polls(one.drop_last()) =~= Seq::<CommandView>::empty());
    assert(with_polls(one) =~= around(first));
    assert(two.drop_last() =~= one);
    assert(two.last() == second);
}

/// Whether `after` is `before` with further exchanges behind it.
pub open spec fn extends(before: Seq<Exchange>, after: Seq<Exchange>) -> bool {
    &&& after.len() >= before.len()
    &&& after.take(before.len() as int) == before
}

/// Whether the commands sent between two states of a log are the first few
/// of `expected`, in order.
pub open spec fn sent_some_of(
    before: Seq<Exchange>,
    after: Seq<Exchange>,
    expected: Seq<CommandView>,
) -> bool {
    exists|n: int|
        0 <= n <= expected.len() && sent(after) == sent(before) + #[trigger] expected.take(n)
}

/// Whether the commands sent between two states of a log are exactly
/// `expected`, in order.
pub open spec fn sent_all_of(
    before: Seq<Exchange>,
    after: Seq<Exchange>,
    expected: Seq<CommandView>,
) -> bool {
    sent(after) == sent(before) + expected
}

/// Where nothing was sent, the first none of any commands were sent.
pub proof fn lemma_sent_none_of(
    before: Seq<Exchange>,
    after: Seq<Exchange>,
    expected: Seq<CommandView>,
)
    requires
        sent(after) == sent(before),
    ensures
        sent_some_of(before, after, expected),
{
    assert(sent(after) =~= sent(before) + expected.take(0));
}

/// Where all of some commands were sent, the first few of them were.
pub proof fn lemma_sent_all_are_some(
    before: Seq<Exchange>,
    after: Seq<Exchange>,
    expected: Seq<CommandView>,
)
    requires
        sent_all_of(before, after, expected),
    ensures
        sent_some_of(before, after, expected),
{
    assert(expected.take(expected.len() as int) =~= expected);
}

/// A log that grows by one exchange extends every log that it extended
/// before.
pub proof fn lemma_extends_push(before: Seq<Exchange>, middle: Seq<Exchange>, after: Seq<Exchange>)
    requires
        extends(before, middle),
        after.len() == middle.len() + 1,
        after.drop_last() == middle,
    ensures
        extends(before, after),
        after.len() > before.len(),
        after[before.len() as int] == if middle.len() == before.len() {
            after.last()
        } else {
            middle[before.len() as int]
        },
{
    assert(after.take(before.len() as int) =~= middle.take(before.len() as int));
}

/// A command without address or data.
pub open spec fn bare(command: Command) -> CommandView {
    on_the_bus(command, None, DataView::WriteNone)
}

/// The command that erases the sector at `location`.
pub open spec fn sector_erase(location: nat) -> CommandView {
    on_the_bus(Command::SectorErase, Some(location as u32), DataView::WriteNone)
}

/// The command that programs `bytes` at `address`.
pub open spec fn page_program(address: u32, bytes: Seq<u8>) -> CommandView {
    on_the_bus(Command::PageProgram, Some(address), DataView::Write(bytes))
}

/// The command that reads the whole sector at `location` into a cleared
/// buffer.
pub open spec fn sector_read(location: nat) -> CommandView {
    on_the_bus(
        Command::Read,
        Some(location as u32),
        DataView::Read(Seq::new(SECTOR_SIZE as nat, |i: int| 0u8)),
    )
}

/// Bounds of the pages of the sector at `location`, in order.
pub open spec fn pages_of(location: nat) -> Seq<(nat, nat)> {
    Seq::new(
        PAGES_PER_SECTOR as nat,
        |j: int| ((location + j * PAGE_SIZE) as nat, (location + (j + 1) * PAGE_SIZE) as nat),
    )
}

/// Bounds of the sectors of the chip, in order.
pub open spec fn sectors_of_chip() -> Seq<(nat, nat)> {
    Seq::new(
        NUMBER_OF_SECTORS as nat,
        |j: int|
            ((BASE_ADDRESS + j * SECTOR_SIZE) as nat, (BASE_ADDRESS + (j + 1) * SECTOR_SIZE) as nat),
    )
}

/// The commands that program `data` page by page: for each piece, a write
/// enable and the page program of the bytes of the piece.
pub open spec fn page_programs(pieces: Seq<memory::Overlap>, data: Seq<u8>) -> Seq<CommandView>
    decreases pieces.len(),
{
    if pieces.len() == 0 {
        Seq::empty()
    } else {
        page_programs(pieces.drop_last(), data).push(bare(Command::WriteEnable)).push(
            page_program(
                pieces.last().address,
                data.subrange(pieces.last().start as int, pieces.last().end as int),
            ),
        )
    }
}

/// `existing` with `bytes` written over it from index `offset` on.
pub open spec fn merged(existing: Seq<u8>, offset: int, bytes: Seq<u8>) -> Seq<u8> {
    Seq::new(
        existing.len(),
        |i: int|
            if offset <= i < offset + bytes.len() {
                bytes[i - offset]
            } else {
                existing[i]
            },
    )
}

/// Whether writing `bytes` at `address` into the sector at `location`, which
/// holds `existing`, takes an erase: it does unless `bytes` is a bit subset
/// of what the sector holds there.
pub open spec fn needs_erase(location: nat, existing: Seq<u8>, bytes: Seq<u8>, address: u32) -> bool {
    !is_bit_subset(bytes, existing.skip(address - location))
}

/// The commands that write `bytes` at `address` into the sector at
/// `location`, which holds `existing`. Where no erase is needed, the bytes
/// are programmed page by page. Otherwise the sector is erased, and all of it
/// is programmed page by page with what it held before, overwritten by
/// `bytes`.
pub open spec fn sector_commands(
    location: nat,
    existing: Seq<u8>,
    bytes: Seq<u8>,
    address: u32,
) -> Seq<CommandView> {
    if needs_erase(location, existing, bytes, address) {
        seq![bare(Command::WriteEnable), sector_erase(location)] + page_programs(
            memory::overlaps_of(pages_of(location), location, SECTOR_SIZE as nat),
            merged(existing, address - location, bytes),
        )
    } else {
        page_programs(memory::overlaps_of(pages_of(location), address as nat, bytes.len()), bytes)
    }
}

/// The commands of a write: for each sector that the bytes touch, by
/// ascending address, the read of the sector and then the commands that
/// write the piece of `bytes` that falls into it. `existing` is what each of
/// these sectors held.
pub open spec fn write_commands(
    pieces: Seq<memory::Overlap>,
    existing: Seq<Seq<u8>>,
    bytes: Seq<u8>,
) -> Seq<CommandView>
    decreases pieces.len(),
{
    if pieces.len() == 0 {
        Seq::empty()
    } else {
        let piece = pieces.last();
        let location = (BASE_ADDRESS + piece.block * SECTOR_SIZE) as nat;
        write_commands(pieces.drop_last(), existing.drop_last(), bytes) + seq![
            sector_read(location),
        ] + sector_commands(
            location,
            existing.last(),
            bytes.subrange(piece.start as int, piece.end as int),
            piece.address,
        )
    }
}

/// Whether the piece of `bytes` that falls into sector number `i` of a
/// write takes an erase, the sector holding `existing[i]`.
pub open spec fn piece_needs_erase(
    pieces: Seq<memory::Overlap>,
    existing: Seq<Seq<u8>>,
    bytes: Seq<u8>,
    i: int,
) -> bool {
    needs_erase(
        (BASE_ADDRESS + pieces[i].block * SECTOR_SIZE) as nat,
        existing[i],
        bytes.subrange(pieces[i].start as int, pieces[i].end as int),
        pieces[i].address,
    )
}

/// A write of bytes that are, in every sector they touch, a bit subset of
/// what the sector holds at the place sends no sector erase.
pub proof fn lemma_subset_writes_never_erase(
    pieces: Seq<memory::Overlap>,
    existing: Seq<Seq<u8>>,
    bytes: Seq<u8>,
)
    requires
        existing.len() == pieces.len(),
        forall|i: int|
            0 <= i < pieces.len() ==> !#[trigger] piece_needs_erase(pieces, existing, bytes, i),
    ensures
        forall|k: int|
            0 <= k < write_commands(pieces, existing, bytes).len() ==> (
            #[trigger] write_commands(pieces, existing, bytes)[k]).instruction != Some(
                Command::SectorErase.spec_opcode(),
            ),
    decreases pieces.len(),
{
    if pieces.len() > 0 {
        let piece = pieces.last();
        let last = pieces.len() - 1;
        let location = (BASE_ADDRESS + piece.block * SECTOR_SIZE) as nat;
        let chunk = bytes.subrange(piece.start as int, piece.end as int);
        assert forall|i: int| 0 <= i < pieces.drop_last().len() implies !#[trigger] piece_needs_erase(
            pieces.drop_last(),
            existing.drop_last(),
            bytes,
            i,
        ) by {
            assert(!piece_needs_erase(pieces, existing, bytes, i));
        }
        lemma_subset_writes_never_erase(pieces.drop_last(), existing.drop_last(), bytes);
        assert(!piece_needs_erase(pieces, existing, bytes, last));
        lemma_subset_write_never_erases(location, existing.last(), chunk, piece.address);
        assert(Command::Read.spec_opcode() != Command::SectorErase.spec_opcode());
    }
}

/// The commands that write the first sectors are the first commands of the
/// write.
pub proof fn lemma_write_commands_prefix(
    pieces: Seq<memory::Overlap>,
    existing: Seq<Seq<u8>>,
    bytes: Seq<u8>,
    count: int,
)
    requires
        existing.len() == pieces.len(),
        0 <= count <= pieces.len(),
    ensures
        write_commands(pieces.take(count), existing.take(count), bytes).len() <= write_commands(
            pieces,
            existing,
            bytes,
        ).len(),
        write_commands(pieces.take(count), existing.take(count), bytes) == write_commands(
            pieces,
            existing,
            bytes,
        ).take(write_commands(pieces.take(count), existing.take(count), bytes).len() as int),
    decreases pieces.len(),
{
    let all = write_commands(pieces, existing, bytes);
    if count == pieces.len() {
        assert(pieces.take(count) =~= pieces);
        assert(existing.take(count) =~= existing);
        assert(all.take(all.len() as int) =~= all);
    } else {
        lemma_write_commands_prefix(pieces.drop_last(), existing.drop_last(), bytes, count);
        assert(pieces.drop_last().take(count) =~= pieces.take(count));
        assert(existing.drop_last().take(count) =~= existing.take(count));
        let first = write_commands(pieces.take(count), existing.take(count), bytes);
        let most = write_commands(pieces.drop_last(), existing.drop_last(), bytes);
        assert(all.take(first.len() as int) =~= most.take(first.len() as int));
    }
}

/// Whether the commands sent between two states of a log are the first few
/// of the commands of a write of `bytes` at `address`, in order, for
/// something that the sectors held.
pub open spec fn wrote_some_of(
    before: Seq<Exchange>,
    after: Seq<Exchange>,
    address: nat,
    bytes: Seq<u8>,
) -> bool {
    exists|existing: Seq<Seq<u8>>|
        existing.len() == memory::overlaps_of(sectors_of_chip(), address, bytes.len()).len()
            && #[trigger] sent_some_of(
            before,
            after,
            write_commands(
                memory::overlaps_of(sectors_of_chip(), address, bytes.len()),
                existing,
                bytes,
            ),
        )
}

/// A write that came as far as some of the commands of sector `i`, after
/// all commands of the sectors before it, sent the first few of its commands.
pub proof fn lemma_wrote_some_of(
    before: Seq<Exchange>,
    after: Seq<Exchange>,
    address: nat,
    bytes: Seq<u8>,
    existing: Seq<Seq<u8>>,
    i: int,
    n: int,
)
    requires
        0 <= i < memory::overlaps_of(sectors_of_chip(), address, bytes.len()).len(),
        existing.len() == i + 1,
        0 <= n,
        sent(after) == sent(before) + write_commands(
            memory::overlaps_of(sectors_of_chip(), address, bytes.len()).take(i),
            existing.take(i),
            bytes,
        ) + write_commands(
            memory::overlaps_of(sectors_of_chip(), address, bytes.len()).subrange(i, i + 1),
            existing.subrange(i, i + 1),
            bytes,
        ).take(n),
        n <= write_commands(
            memory::overlaps_of(sectors_of_chip(), address, bytes.len()).subrange(i, i + 1),
            existing.subrange(i, i + 1),
            bytes,
        ).len(),
    ensures
        wrote_some_of(before, after, address, bytes),
{
    let pieces = memory::overlaps_of(sectors_of_chip(), address, bytes.len());
    let rest = Seq::new((pieces.len() - i - 1) as nat, |k: int| Seq::<u8>::empty());
    let padded = existing + rest;
    let all = write_commands(pieces, padded, bytes);
    let earlier = write_commands(pieces.take(i), existing.take(i), bytes);
    let one = write_commands(pieces.subrange(i, i + 1), existing.subrange(i, i + 1), bytes);
    let upto = write_commands(pieces.take(i + 1), existing, bytes);
    assert(padded.take(i + 1) =~= existing);
    lemma_write_commands_prefix(pieces, padded, bytes, i + 1);
    assert(pieces.take(i + 1).drop_last() =~= pieces.take(i));
    assert(existing.drop_last() =~= existing.take(i));
    let single = pieces.subrange(i, i + 1);
    assert(single.drop_last() =~= Seq::<memory::Overlap>::empty());
    assert(write_commands(single.drop_last(), existing.subrange(i, i + 1).drop_last(), bytes)
        =~= Seq::<CommandView>::empty());
    assert(single.last() == pieces.take(i + 1).last());
    assert(existing.subrange(i, i + 1).last() == existing.last());
    assert(upto =~= earlier + one);
    let m = earlier.len() + n;
    assert(upto.len() == earlier.len() + one.len());
    assert(m <= all.len());
    assert(earlier + one.take(n) =~= all.take(m));
    assert(sent(after) =~= sent(before) + all.take(m));
    assert(sent_some_of(before, after, all));
}

/// The commands of one more sector, behind those of the sectors before
/// it, are the commands of the sectors up to it.
pub proof fn lemma_sector_commands_added(
    pieces: Seq<memory::Overlap>,
    existing: Seq<Seq<u8>>,
    bytes: Seq<u8>,
    i: int,
    held: Seq<u8>,
)
    requires
        0 <= i < pieces.len(),
        existing.len() == i,
    ensures
        write_commands(pieces.take(i + 1), existing.push(held), bytes) == write_commands(
            pieces.take(i),
            existing,
            bytes,
        ) + (seq![sector_read((BASE_ADDRESS + pieces[i].block * SECTOR_SIZE) as nat)]
            + sector_commands(
            (BASE_ADDRESS + pieces[i].block * SECTOR_SIZE) as nat,
            held,
            bytes.subrange(pieces[i].start as int, pieces[i].end as int),
            pieces[i].address,
        )),
{
    let location = (BASE_ADDRESS + pieces[i].block * SECTOR_SIZE) as nat;
    let chunk = bytes.subrange(pieces[i].start as int, pieces[i].end as int);
    let so_far = write_commands(pieces.take(i), existing, bytes);
    assert(pieces.take(i + 1).drop_last() =~= pieces.take(i));
    assert(existing.push(held).drop_last() =~= existing);
    assert(pieces.take(i + 1).last() == pieces[i]);
    assert(write_commands(pieces.take(i + 1), existing.push(held), bytes) =~= so_far + (seq![
        sector_read(location),
    ] + sector_commands(location, held, chunk, pieces[i].address)));
}

/// The read of one more sector, behind the writes of the sectors before
/// it, brought back what one more sector held.
pub proof fn lemma_sector_brought_back(
    from: int,
    middle: Seq<Exchange>,
    now: Seq<Exchange>,
    pieces: Seq<memory::Overlap>,
    existing: Seq<Seq<u8>>,
    places: Seq<int>,
    bytes: Seq<u8>,
    i: int,
    k: int,
)
    requires
        0 <= from <= middle.len(),
        extends(middle, now),
        0 <= i < pieces.len(),
        existing.len() == i,
        brought_back(middle, from, pieces, existing, places, bytes, i),
        middle.len() <= k < now.len(),
        now[k].sent == sector_read((BASE_ADDRESS + pieces[i].block * SECTOR_SIZE) as nat),
        now[k].outcome is Done,
        read_back(now[k]).len() == SECTOR_SIZE,
        sent(now.take(k)) == sent(middle),
        sent(middle) == sent(middle.take(from)) + write_commands(pieces.take(i), existing, bytes),
    ensures
        brought_back(
            now,
            from,
            pieces,
            existing.push(read_back(now[k])),
            places.push(k),
            bytes,
            i + 1,
        ),
{
    let held = read_back(now[k]);
    let longer = existing.push(held);
    let further = places.push(k);
    assert(now.take(from) =~= now.take(middle.len() as int).take(from));
    assert forall|j: int| 0 <= j < i + 1 implies {
        &&& from <= #[trigger] further[j] < now.len()
        &&& now[further[j]].sent == sector_read(
            (BASE_ADDRESS + pieces[j].block * SECTOR_SIZE) as nat,
        )
        &&& now[further[j]].outcome is Done
        &&& now[further[j]].returned == DataView::Read(longer[j])
        &&& longer[j].len() == SECTOR_SIZE
        &&& sent(now.take(further[j])) == sent(now.take(from)) + write_commands(
            pieces.take(j),
            longer.take(j),
            bytes,
        )
    } by {
        assert(longer.take(j) =~= existing.take(j));
        if j < i {
            assert(further[j] == places[j]);
            assert(now[places[j]] == now.take(middle.len() as int)[places[j]]);
            assert(now.take(places[j]) =~= now.take(middle.len() as int).take(places[j]));
        } else {
            assert(existing.take(i) =~= existing);
        }
    }
}

/// A write that failed in sector `i`, after the sectors before it were
/// written, sent the first few of its commands.
pub proof fn lemma_sector_failed(
    log: Seq<Exchange>,
    middle: Seq<Exchange>,
    now: Seq<Exchange>,
    address: nat,
    bytes: Seq<u8>,
    existing: Seq<Seq<u8>>,
    i: int,
    held: Seq<u8>,
)
    requires
        0 <= i < memory::overlaps_of(sectors_of_chip(), address, bytes.len()).len(),
        existing.len() == i,
        sent(middle) == sent(log) + write_commands(
            memory::overlaps_of(sectors_of_chip(), address, bytes.len()).take(i),
            existing,
            bytes,
        ),
        sent_some_of(
            middle,
            now,
            seq![
                sector_read(
                    (BASE_ADDRESS + memory::overlaps_of(
                        sectors_of_chip(),
                        address,
                        bytes.len(),
                    )[i].block * SECTOR_SIZE) as nat,
                ),
            ] + sector_commands(
                (BASE_ADDRESS + memory::overlaps_of(sectors_of_chip(), address, bytes.len())[i].block
                    * SECTOR_SIZE) as nat,
                held,
                bytes.subrange(
                    memory::overlaps_of(sectors_of_chip(), address, bytes.len())[i].start as int,
                    memory::overlaps_of(sectors_of_chip(), address, bytes.len())[i].end as int,
                ),
                memory::overlaps_of(sectors_of_chip(), address, bytes.len())[i].address,
            ),
        ),
    ensures
        wrote_some_of(log, now, address, bytes),
{
    let pieces = memory::overlaps_of(sectors_of_chip(), address, bytes.len());
    let piece = pieces[i];
    let location = (BASE_ADDRESS + piece.block * SECTOR_SIZE) as nat;
    let chunk = bytes.subrange(piece.start as int, piece.end as int);
    let one = seq![sector_read(location)] + sector_commands(location, held, chunk, piece.address);
    let n = choose|n: int| 0 <= n <= one.len() && sent(now) == sent(middle) + #[trigger] one.take(n);
    let longer = existing.push(held);
    let single = pieces.subrange(i, i + 1);
    assert(longer.take(i) =~= existing);
    assert(single.last() == piece);
    assert(longer.subrange(i, i + 1).last() == held);
    assert(single.drop_last() =~= Seq::<memory::Overlap>::empty());
    assert(write_commands(single.drop_last(), longer.subrange(i, i + 1).drop_last(), bytes)
        =~= Seq::<CommandView>::empty());
    assert(write_commands(single, longer.subrange(i, i + 1), bytes) =~= one);
    lemma_wrote_some_of(log, now, address, bytes, longer, i, n);
}

/// Transfer number `c` of the transfers in which `write_from_blocks` passes
/// `bytes` on: a sector's worth of bytes, or what is left of them.
pub open spec fn transfer(bytes: Seq<u8>, c: int) -> Seq<u8> {
    bytes.subrange(
        c * SECTOR_SIZE,
        if (c + 1) * SECTOR_SIZE <= bytes.len() {
            (c + 1) * SECTOR_SIZE
        } else {
            bytes.len() as int
        },
    )
}

/// The commands of the first `count` transfers of `bytes` to `address`:
/// those of the writes of the transfers, one after the other. `existing` is,
/// for each transfer, what the sectors held that its write read.
pub open spec fn blocks_commands(
    bytes: Seq<u8>,
    address: nat,
    existing: Seq<Seq<Seq<u8>>>,
    count: int,
) -> Seq<CommandView>
    decreases count,
{
    if count <= 0 {
        Seq::empty()
    } else {
        blocks_commands(bytes, address, existing, count - 1) + write_commands(
            memory::overlaps_of(
                sectors_of_chip(),
                (address + (count - 1) * SECTOR_SIZE) as nat,
                transfer(bytes, count - 1).len(),
            ),
            existing[count - 1],
            transfer(bytes, count - 1),
        )
    }
}

/// The commands of the first transfers do not depend on what the sectors
/// held that later transfers read.
pub proof fn lemma_blocks_commands_ignore_later(
    bytes: Seq<u8>,
    address: nat,
    existing: Seq<Seq<Seq<u8>>>,
    next: Seq<Seq<u8>>,
    count: int,
)
    requires
        0 <= count <= existing.len(),
    ensures
        blocks_commands(bytes, address, existing.push(next), count) == blocks_commands(
            bytes,
            address,
            existing,
            count,
        ),
    decreases count,
{
    if count > 0 {
        lemma_blocks_commands_ignore_later(bytes, address, existing, next, count - 1);
        assert(existing.push(next)[count - 1] == existing[count - 1]);
    }
}

/// The trace of the first `count` transfers of `bytes` to `address`: for
/// each transfer a read of the status register and the commands of its write,
/// each with its read of the status register.
pub open spec fn blocks_trace(
    bytes: Seq<u8>,
    address: nat,
    existing: Seq<Seq<Seq<u8>>>,
    count: int,
) -> Seq<CommandView>
    decreases count,
{
    if count <= 0 {
        Seq::empty()
    } else {
        blocks_trace(bytes, address, existing, count - 1).push(query(Command::ReadStatus))
            + with_polls(
            write_commands(
                memory::overlaps_of(
                    sectors_of_chip(),
                    (address + (count - 1) * SECTOR_SIZE) as nat,
                    transfer(bytes, count - 1).len(),
                ),
                existing[count - 1],
                transfer(bytes, count - 1),
            ),
        )
    }
}

/// The trace of the first transfers does not depend on what the sectors
/// held that later transfers read.
pub proof fn lemma_blocks_trace_ignores_later(
    bytes: Seq<u8>,
    address: nat,
    existing: Seq<Seq<Seq<u8>>>,
    next: Seq<Seq<u8>>,
    count: int,
)
    requires
        0 <= count <= existing.len(),
    ensures
        blocks_trace(bytes, address, existing.push(next), count) == blocks_trace(
            bytes,
            address,
            existing,
            count,
        ),
    decreases count,
{
    if count > 0 {
        lemma_blocks_trace_ignores_later(bytes, address, existing, next, count - 1);
        assert(existing.push(next)[count - 1] == existing[count - 1]);
    }
}

/// Whether `existing` is what the reads of the first `count` sectors
/// brought back that the pieces `pieces` of `bytes` fall into: the read for
/// piece `i` stands at place `places[i]` of the log, behind place `from`, and
/// what was sent between the two places are the commands that write the
/// pieces before it.
pub open spec fn brought_back(
    log: Seq<Exchange>,
    from: int,
    pieces: Seq<memory::Overlap>,
    existing: Seq<Seq<u8>>,
    places: Seq<int>,
    bytes: Seq<u8>,
    count: int,
) -> bool {
    &&& 0 <= count <= pieces.len()
    &&& existing.len() == count
    &&& places.len() == count
    &&& forall|i: int|
        0 <= i < count ==> {
            &&& from <= #[trigger] places[i] < log.len()
            &&& log[places[i]].sent == sector_read(
                (BASE_ADDRESS + pieces[i].block * SECTOR_SIZE) as nat,
            )
            &&& log[places[i]].outcome is Done
            &&& log[places[i]].returned == DataView::Read(existing[i])
            &&& existing[i].len() == SECTOR_SIZE
            &&& sent(log.take(places[i])) == sent(log.take(from)) + write_commands(
                pieces.take(i),
                existing.take(i),
                bytes,
            )
        }
}

/// Whether transfer number `i` of `bytes` to `address` was written between
/// the places `cuts[i]` and `cuts[i + 1]` of the log: the commands sent
/// between them are those of its write, whose reads, at the places
/// `places[i]`, brought back `existing[i]`.
pub open spec fn transfer_written(
    log: Seq<Exchange>,
    cuts: Seq<int>,
    existing: Seq<Seq<Seq<u8>>>,
    places: Seq<Seq<int>>,
    bytes: Seq<u8>,
    address: nat,
    i: int,
) -> bool {
    let pieces = memory::overlaps_of(
        sectors_of_chip(),
        (address + i * SECTOR_SIZE) as nat,
        transfer(bytes, i).len(),
    );
    &&& 0 <= cuts[i] <= cuts[i + 1] <= log.len()
    &&& brought_back(
        log.take(cuts[i + 1]),
        cuts[i],
        pieces,
        existing[i],
        places[i],
        transfer(bytes, i),
        pieces.len() as int,
    )
    &&& sent_all_of(
        log.take(cuts[i]),
        log.take(cuts[i + 1]),
        write_commands(pieces, existing[i], transfer(bytes, i)),
    )
}

/// Whether the first `count` transfers of `bytes` to `address` were written
/// in the log one after the other, each between two neighbours of `cuts`.
pub open spec fn transfers_written(
    log: Seq<Exchange>,
    cuts: Seq<int>,
    existing: Seq<Seq<Seq<u8>>>,
    places: Seq<Seq<int>>,
    bytes: Seq<u8>,
    address: nat,
    count: int,
) -> bool {
    &&& 0 <= count
    &&& cuts.len() == count + 1
    &&& 0 <= cuts[0] <= log.len()
    &&& existing.len() == count
    &&& places.len() == count
    &&& forall|i: int|
        0 <= i < count ==> #[trigger] transfer_written(
            log,
            cuts,
            existing,
            places,
            bytes,
            address,
            i,
        )
}

/// Transfers that were written in a log are written in every log that
/// continues it.
pub proof fn lemma_transfers_stay(
    middle: Seq<Exchange>,
    now: Seq<Exchange>,
    cuts: Seq<int>,
    existing: Seq<Seq<Seq<u8>>>,
    places: Seq<Seq<int>>,
    bytes: Seq<u8>,
    address: nat,
    count: int,
)
    requires
        transfers_written(middle, cuts, existing, places, bytes, address, count),
        extends(middle, now),
    ensures
        transfers_written(now, cuts, existing, places, bytes, address, count),
{
    assert forall|i: int| 0 <= i < count implies #[trigger] transfer_written(
        now,
        cuts,
        existing,
        places,
        bytes,
        address,
        i,
    ) by {
        assert(transfer_written(middle, cuts, existing, places, bytes, address, i));
        assert(now.take(cuts[i]) =~= now.take(middle.len() as int).take(cuts[i]));
        assert(now.take(cuts[i + 1]) =~= now.take(middle.len() as int).take(cuts[i + 1]));
    }
}

/// One more transfer, written behind the transfers that a log holds, makes
/// one more transfer written.
pub proof fn lemma_transfer_added(
    middle: Seq<Exchange>,
    now: Seq<Exchange>,
    cuts: Seq<int>,
    existing: Seq<Seq<Seq<u8>>>,
    places: Seq<Seq<int>>,
    bytes: Seq<u8>,
    address: nat,
    count: int,
    held: Seq<Seq<u8>>,
    spots: Seq<int>,
)
    requires
        transfers_written(middle, cuts, existing, places, bytes, address, count),
        cuts[count] == middle.len(),
        extends(middle, now),
        brought_back(
            now,
            middle.len() as int,
            memory::overlaps_of(
                sectors_of_chip(),
                (address + count * SECTOR_SIZE) as nat,
                transfer(bytes, count).len(),
            ),
            held,
            spots,
            transfer(bytes, count),
            memory::overlaps_of(
                sectors_of_chip(),
                (address + count * SECTOR_SIZE) as nat,
                transfer(bytes, count).len(),
            ).len() as int,
        ),
        sent_all_of(
            middle,
            now,
            write_commands(
                memory::overlaps_of(
                    sectors_of_chip(),
                    (address + count * SECTOR_SIZE) as nat,
                    transfer(bytes, count).len(),
                ),
                held,
                transfer(bytes, count),
            ),
        ),
    ensures
        transfers_written(
            now,
            cuts.push(now.len() as int),
            existing.push(held),
            places.push(spots),
            bytes,
            address,
            count + 1,
        ),
{
    let further = cuts.push(now.len() as int);
    let longer = existing.push(held);
    let spotted = places.push(spots);
    lemma_transfers_stay(middle, now, cuts, existing, places, bytes, address, count);
    assert(now.take(now.len() as int) =~= now);
    assert(now.take(middle.len() as int) =~= middle);
    assert forall|i: int| 0 <= i < count + 1 implies #[trigger] transfer_written(
        now,
        further,
        longer,
        spotted,
        bytes,
        address,
        i,
    ) by {
        if i < count {
            assert(transfer_written(now, cuts, existing, places, bytes, address, i));
        }
    }
}

/// What a read exchange brought back.
pub open spec fn read_back(exchange: Exchange) -> Seq<u8> {
    match exchange.returned {
        DataView::Read(bytes) => bytes,
        _ => Seq::empty(),
    }
}

/// Programming page by page sends no sector erase.
pub proof fn lemma_page_programs_never_erase(pieces: Seq<memory::Overlap>, data: Seq<u8>)
    ensures
        forall|i: int|
            0 <= i < page_programs(pieces, data).len() ==> (#[trigger] page_programs(
                pieces,
                data,
            )[i]).instruction != Some(Command::SectorErase.spec_opcode()),
    decreases pieces.len(),
{
    if pieces.len() > 0 {
        lemma_page_programs_never_erase(pieces.drop_last(), data);
    }
}

/// A write of bytes that are a bit subset of what the sector holds at the
/// place sends no sector erase.
pub proof fn lemma_subset_write_never_erases(
    location: nat,
    existing: Seq<u8>,
    bytes: Seq<u8>,
    address: u32,
)
    requires
        !needs_erase(location, existing, bytes, address),
    ensures
        forall|i: int|
            0 <= i < sector_commands(location, existing, bytes, address).len() ==> (
            #[trigger] sector_commands(location, existing, bytes, address)[i]).instruction
                != Some(Command::SectorErase.spec_opcode()),
{
    lemma_page_programs_never_erase(
        memory::overlaps_of(pages_of(location), address as nat, bytes.len()),
        bytes,
    );
}

/// The commands that program the first `count` pieces are the first
/// `2 * count` of the commands that program all of them.
pub proof fn lemma_page_programs_prefix(pieces: Seq<memory::Overlap>, data: Seq<u8>, count: int)
    requires
        0 <= count <= pieces.len(),
    ensures
        page_programs(pieces, data).len() == 2 * pieces.len(),
        page_programs(pieces.take(count), data) == page_programs(pieces, data).take(2 * count),
    decreases pieces.len(),
{
    if pieces.len() == 0 {
        assert(pieces.take(count) =~= pieces);
        assert(page_programs(pieces, data).take(0) =~= page_programs(pieces, data));
    } else if count == pieces.len() {
        lemma_page_programs_prefix(pieces.drop_last(), data, count - 1);
        assert(pieces.take(count) =~= pieces);
        assert(page_programs(pieces, data).take(2 * count) =~= page_programs(pieces, data));
    } else {
        lemma_page_programs_prefix(pieces.drop_last(), data, count);
        assert(pieces.take(count) =~= pieces.drop_last().take(count));
        assert(page_programs(pieces, data).take(2 * count) =~= page_programs(
            pieces.drop_last(),
            data,
        ).take(2 * count));
    }
}

/// Driver for the chip, over a QSPI peripheral in indirect mode and a clock.
pub struct MicronN25q128a<QSPI: Indirect, NOW: Now> {
    pub qspi: QSPI,
    /// How long to wait for a program or erase operation before giving up.
    /// Without it the driver waits as long as the operation takes.
    pub timeout: Option<Milliseconds>,
    pub _marker: PhantomData<NOW>,
}

impl<QSPI: Indirect, NOW: Now> MicronN25q128a<QSPI, NOW> {
    /// Hands one command to the bus, again and again while the bus turns it
    /// away, and gives back the data of the command. Any error of the bus
    /// comes back as `QspiError`.
    pub fn execute_command(
        qspi: &mut QSPI,
        command: Command,
        address: Option<Address>,
        data: Data,
    ) -> (result: (Result<(), nb::Error<FlashError>>, Data))
        requires
            old(qspi).inv(),
        ensures
            final(qspi).inv(),
            same_shape(
                on_the_bus(command, raw(address), data@),
                on_the_bus(command, raw(address), result.1@),
            ),
            final(qspi).log() == old(qspi).log().push(
                Exchange {
                    sent: on_the_bus(command, raw(address), data@),
                    returned: result.1@,
                    outcome: if result.0 is Ok {
                        Outcome::Done
                    } else {
                        Outcome::Failed
                    },
                },
            ),
            result.0 is Ok || result.0 == Err::<(), nb::Error<FlashError>>(
                nb::Error::Other(FlashError::QspiError),
            ),
            command == Command::ReadStatus ==> final(qspi).patience() <= old(qspi).patience(),
            old(qspi).memory() is Some ==> result.0 is Ok,
            served_from(old(qspi).replies(), old(qspi).log(), final(qspi).log(), final(qspi).replies()),
            command == Command::ReadStatus || command == Command::Read ==> final(qspi).memory()
                == old(qspi).memory(),
            result.0 is Ok ==> brought(
                old(qspi).memory(),
                on_the_bus(command, raw(address), data@),
                result.1@,
            ),
            found_busy(
                on_the_bus(command, raw(address), data@),
                on_the_bus(command, raw(address), result.1@),
            ) ==> final(qspi).patience() < old(qspi).patience(),
    {
        let ghost carried = data@;
        let ghost handed = on_the_bus(command, raw(address), carried);
        let ghost log = qspi.log();
        let ghost patience = qspi.patience();
        let mut order = QSPICommand::default().with_instruction(command.opcode()).with_data(data);
        if let Some(address) = address {
            order = order.with_address(address.0);
        }
        loop
            invariant
                qspi.inv(),
                order@ == handed,
                handed == on_the_bus(command, raw(address), carried),
                carried == data@,
                qspi.log() == log,
                log == old(qspi).log(),
                qspi.patience() <= patience,
                patience == old(qspi).patience(),
                qspi.memory() == old(qspi).memory(),
                qspi.replies() == old(qspi).replies(),
            decreases qspi.patience(),
        {
            let outcome = qspi.execute_command(&mut order);
            proof {
                if !(outcome matches Err(nb::Error::WouldBlock)) {
                    lemma_served_one(old(qspi).replies(), log, qspi.log().last(), qspi.replies());
                }
            }
            match outcome {
                Ok(()) => {
                    return (Ok(()), order.data());
                },
                Err(nb::Error::WouldBlock) => {},
                Err(nb::Error::Other(_)) => {
                    return (Err(nb::Error::Other(FlashError::QspiError)), order.data());
                },
            }
        }
    }

    /// Reads the status register of the chip.
    pub fn status(qspi: &mut QSPI) -> (result: Result<Status, nb::Error<FlashError>>)
        requires
            old(qspi).inv(),
        ensures
            final(qspi).inv(),
            polled(old(qspi).log(), final(qspi).log()),
            final(qspi).memory() == old(qspi).memory(),
            served_from(old(qspi).replies(), old(qspi).log(), final(qspi).log(), final(qspi).replies()),
            old(qspi).memory() is Some ==> result is Ok,
            sent(final(qspi).log()) == sent(old(qspi).log()),
            trace(final(qspi).log()) == if reports_busy(final(qspi).log().last()) {
                trace(old(qspi).log())
            } else {
                trace(old(qspi).log()).push(query(Command::ReadStatus))
            },
            final(qspi).patience() <= old(qspi).patience(),
            match result {
                Ok(status) => {
                    &&& final(qspi).log().last().outcome is Done
                    &&& status.write_in_progress == reports_busy(final(qspi).log().last())
                    &&& status.write_in_progress ==> final(qspi).patience() < old(qspi).patience()
                },
                Err(error) => {
                    &&& error == nb::Error::Other(FlashError::QspiError)
                    &&& final(qspi).log().last().outcome is Failed
                },
            },
    {
        let ghost log = qspi.log();
        let response: Vec<u8> = vec![0u8; 1];
        assert(response@ =~= seq![0u8]);
        let (result, data) = Self::execute_command(
            qspi,
            Command::ReadStatus,
            None,
            Data::Read(response),
        );
        proof {
            lemma_sent_push(log, qspi.log().last());
            lemma_trace_push(log, qspi.log().last());
            assert(qspi.log().drop_last() =~= log);
            assert(!bit_is_set(0u8, 0)) by (bit_vector);
        }
        match result {
            Ok(()) => match data {
                Data::Read(response) => Ok(Status::from_byte(response[0])),
                _ => Ok(Status::from_byte(0)),
            },
            Err(error) => Err(error),
        }
    }

    /// Asks the chip for its manufacturer id and holds it against Micron's.
    pub fn verify_id(&mut self) -> (result: Result<(), nb::Error<FlashError>>)
        requires
            old(self).qspi.inv(),
        ensures
            final(self).qspi.inv(),
            final(self).timeout == old(self).timeout,
            final(self).qspi.log().len() == old(self).qspi.log().len() + 1,
            final(self).qspi.log().drop_last() == old(self).qspi.log(),
            final(self).qspi.log().last().sent == query(Command::ReadId),
            served_from(
                old(self).qspi.replies(),
                old(self).qspi.log(),
                final(self).qspi.log(),
                final(self).qspi.replies(),
            ),
            match result {
                Ok(()) => {
                    &&& final(self).qspi.log().last().outcome is Done
                    &&& final(self).qspi.log().last().returned == DataView::Read(
                        seq![MANUFACTURER_ID],
                    )
                },
                Err(nb::Error::Other(FlashError::WrongManufacturerId)) => {
                    &&& final(self).qspi.log().last().outcome is Done
                    &&& final(self).qspi.log().last().returned != DataView::Read(
                        seq![MANUFACTURER_ID],
                    )
                },
                Err(nb::Error::Other(FlashError::QspiError)) => final(self).qspi.log().last().outcome
                    is Failed,
                Err(_) => false,
            },
    {
        let ghost log = self.qspi.log();
        let ghost replies = self.qspi.replies();
        let response: Vec<u8> = vec![0u8; 1];
        assert(response@ =~= seq![0u8]);
        let (result, data) = Self::execute_command(
            &mut self.qspi,
            Command::ReadId,
            None,
            Data::Read(response),
        );
        assert(self.qspi.log().drop_last() =~= log);
        match result {
            Ok(()) => match data {
                Data::Read(response) => {
                    if response[0] == MANUFACTURER_ID {
                        assert(response@ =~= seq![MANUFACTURER_ID]);
                        Ok(())
                    } else {
                        assert(seq![MANUFACTURER_ID][0] == MANUFACTURER_ID);
                        Err(nb::Error::Other(FlashError::WrongManufacturerId))
                    }
                },
                _ => Err(nb::Error::Other(FlashError::WrongManufacturerId)),
            },
            Err(error) => Err(error),
        }
    }

    /// A driver for the chip behind `qspi`, once the chip has answered with
    /// Micron's manufacturer id.
    pub fn new(qspi: QSPI) -> (result: Result<Self, FlashError>)
        requires
            qspi.inv(),
        ensures
            qspi.replies() matches Some(queue) ==> {
                &&& (result is Ok) == (answered_from(DataView::Read(seq![0u8]), queue)
                    == DataView::Read(seq![MANUFACTURER_ID]))
                &&& result matches Err(error) ==> error == FlashError::WrongManufacturerId
                &&& result matches Ok(flash) ==> flash.qspi.replies() == Some(
                    left_after(DataView::Read(seq![0u8]), queue),
                )
            },
            match result {
                Ok(flash) => {
                    &&& flash.qspi.inv()
                    &&& flash.timeout is None
                    &&& flash.qspi.log().len() == qspi.log().len() + 1
                    &&& flash.qspi.log().drop_last() == qspi.log()
                    &&& flash.qspi.log().last().sent == query(Command::ReadId)
                    &&& flash.qspi.log().last().outcome is Done
                    &&& flash.qspi.log().last().returned == DataView::Read(seq![MANUFACTURER_ID])
                },
                Err(error) => error == FlashError::WrongManufacturerId || error == FlashError::QspiError,
            },
    {
        let mut flash = Self { qspi, timeout: None, _marker: PhantomData };
        let outcome = flash.verify_id();
        proof {
            if qspi.replies() is Some {
                let queue = qspi.replies()->Some_0;
                lemma_first_served(queue, qspi.log(), flash.qspi.log(), flash.qspi.replies());
                assert(flash.qspi.log().skip(qspi.log().len() as int).drop_last() =~= Seq::<
                    Exchange,
                >::empty());
            }
        }
        match outcome {
            Ok(()) => Ok(flash),
            Err(nb::Error::Other(error)) => Err(error),
            Err(nb::Error::WouldBlock) => Err(FlashError::QspiError),
        }
    }

    /// As `new`, for a driver that gives up on a program or erase operation
    /// that takes longer than `timeout`.
    pub fn with_timeout(qspi: QSPI, timeout: Milliseconds) -> (result: Result<Self, FlashError>)
        requires
            qspi.inv(),
        ensures
            qspi.replies() matches Some(queue) ==> {
                &&& (result is Ok) == (answered_from(DataView::Read(seq![0u8]), queue)
                    == DataView::Read(seq![MANUFACTURER_ID]))
                &&& result matches Err(error) ==> error == FlashError::WrongManufacturerId
                &&& result matches Ok(flash) ==> flash.qspi.replies() == Some(
                    left_after(DataView::Read(seq![0u8]), queue),
                )
            },
            match result {
                Ok(flash) => {
                    &&& flash.qspi.inv()
                    &&& flash.timeout == Some(timeout)
                    &&& flash.qspi.log().len() == qspi.log().len() + 1
                    &&& flash.qspi.log().drop_last() == qspi.log()
                    &&& flash.qspi.log().last().sent == query(Command::ReadId)
                    &&& flash.qspi.log().last().outcome is Done
                    &&& flash.qspi.log().last().returned == DataView::Read(seq![MANUFACTURER_ID])
                },
                Err(error) => error == FlashError::WrongManufacturerId || error == FlashError::QspiError,
            },
    {
        let mut flash = Self { qspi, timeout: Some(timeout), _marker: PhantomData };
        let outcome = flash.verify_id();
        proof {
            if qspi.replies() is Some {
                let queue = qspi.replies()->Some_0;
                lemma_first_served(queue, qspi.log(), flash.qspi.log(), flash.qspi.replies());
                assert(flash.qspi.log().skip(qspi.log().len() as int).drop_last() =~= Seq::<
                    Exchange,
                >::empty());
            }
        }
        match outcome {
            Ok(()) => Ok(flash),
            Err(nb::Error::Other(error)) => Err(error),
            Err(nb::Error::WouldBlock) => Err(FlashError::QspiError),
        }
    }

    /// Looks whether the chip has finished its program or erase operation.
    /// A driver with a timeout first waits for the operation, for as long as
    /// the timeout allows.
    pub fn wait_until_write_complete(&mut self) -> (result: Result<(), nb::Error<FlashError>>)
        requires
            old(self).qspi.inv(),
        ensures
            final(self).qspi.inv(),
            final(self).timeout == old(self).timeout,
            extends(old(self).qspi.log(), final(self).qspi.log()),
            final(self).qspi.log().len() > old(self).qspi.log().len(),
            sent(final(self).qspi.log()) == sent(old(self).qspi.log()),
            only_polls(final(self).qspi.log(), old(self).qspi.log().len() as int),
            served_from(
                old(self).qspi.replies(),
                old(self).qspi.log(),
                final(self).qspi.log(),
                final(self).qspi.replies(),
            ),
            done_before_last(final(self).qspi.log(), old(self).qspi.log().len() as int),
            old(self).timeout is None ==> final(self).qspi.log().len() == old(
                self,
            ).qspi.log().len() + 1,
            old(self).timeout is None ==> trace(final(self).qspi.log()) == if reports_busy(
                final(self).qspi.log().last(),
            ) {
                trace(old(self).qspi.log())
            } else {
                trace(old(self).qspi.log()).push(query(Command::ReadStatus))
            },
            match result {
                Ok(()) => {
                    &&& final(self).qspi.log().last().outcome is Done
                    &&& !reports_busy(final(self).qspi.log().last())
                },
                Err(nb::Error::WouldBlock) => {
                    &&& reports_busy(final(self).qspi.log().last())
                    &&& final(self).qspi.patience() < old(self).qspi.patience()
                },
                Err(nb::Error::Other(FlashError::TimeOut)) => {
                    &&& old(self).timeout is Some
                    &&& reports_busy(final(self).qspi.log().last())
                    &&& final(self).qspi.log().len() > old(self).qspi.log().len()
                },
                Err(nb::Error::Other(FlashError::QspiError)) => {
                    &&& final(self).qspi.log().len() > old(self).qspi.log().len()
                    &&& final(self).qspi.log().last().outcome is Failed
                },
                Err(nb::Error::Other(_)) => false,
            },
    {
        let ghost log = self.qspi.log();
        let ghost replies = self.qspi.replies();
        let ghost patience = self.qspi.patience();
        assert(log.take(log.len() as int) =~= log);
        if let Some(timeout) = self.timeout {
            let start = NOW::now();
            loop
                invariant
                    self.qspi.inv(),
                    self.timeout == old(self).timeout,
                    old(self).timeout is Some,
                    log == old(self).qspi.log(),
                    replies == old(self).qspi.replies(),
                    served_from(replies, log, self.qspi.log(), self.qspi.replies()),
                    patience == old(self).qspi.patience(),
                    extends(log, self.qspi.log()),
                    sent(self.qspi.log()) == sent(log),
                    self.qspi.patience() <= patience,
                    all_done(self.qspi.log(), log.len() as int),
                    only_polls(self.qspi.log(), log.len() as int),
                decreases self.qspi.patience(),
            {
                let ghost middle = self.qspi.log();
                let ghost middle_replies = self.qspi.replies();
                let polled = Self::status(&mut self.qspi);
                proof {
                    lemma_extends_push(log, middle, self.qspi.log());
                    lemma_done_so_far(log.len() as int, middle, self.qspi.log());
                    assert(self.qspi.log().take(middle.len() as int) =~= middle);
                    lemma_served_both(
                        replies,
                        log,
                        middle,
                        middle_replies,
                        self.qspi.log(),
                        self.qspi.replies(),
                    );
                }
                match polled {
                    Ok(status) => {
                        if !status.write_in_progress {
                            break ;
                        }
                    },
                    Err(error) => {
                        return Err(error);
                    },
                }
                if elapsed(start, NOW::now()).0 > timeout.0 {
                    return Err(nb::Error::Other(FlashError::TimeOut));
                }
            }
        }
        let ghost middle = self.qspi.log();
        let ghost middle_replies = self.qspi.replies();
        let polled = Self::status(&mut self.qspi);
        proof {
            lemma_extends_push(log, middle, self.qspi.log());
            lemma_done_so_far(log.len() as int, middle, self.qspi.log());
            assert(self.qspi.log().take(middle.len() as int) =~= middle);
            lemma_served_both(
                replies,
                log,
                middle,
                middle_replies,
                self.qspi.log(),
                self.qspi.replies(),
            );
        }
        match polled {
            Ok(status) => {
                if status.write_in_progress {
                    Err(nb::Error::WouldBlock)
                } else {
                    Ok(())
                }
            },
            Err(error) => Err(error),
        }
    }

    /// Waits until the chip has finished its program or erase operation.
    pub fn block_until_write_complete(&mut self) -> (result: Result<(), FlashError>)
        requires
            old(self).qspi.inv(),
        ensures
            final(self).qspi.inv(),
            final(self).timeout == old(self).timeout,
            extends(old(self).qspi.log(), final(self).qspi.log()),
            final(self).qspi.log().len() > old(self).qspi.log().len(),
            sent(final(self).qspi.log()) == sent(old(self).qspi.log()),
            only_polls(final(self).qspi.log(), old(self).qspi.log().len() as int),
            served_from(
                old(self).qspi.replies(),
                old(self).qspi.log(),
                final(self).qspi.log(),
                final(self).qspi.replies(),
            ),
            done_before_last(final(self).qspi.log(), old(self).qspi.log().len() as int),
            old(self).timeout is None && result is Ok ==> trace(final(self).qspi.log()) == trace(
                old(self).qspi.log(),
            ).push(query(Command::ReadStatus)),
            match result {
                Ok(()) => {
                    &&& final(self).qspi.log().last().outcome is Done
                    &&& !reports_busy(final(self).qspi.log().last())
                },
                Err(FlashError::TimeOut) => {
                    &&& old(self).timeout is Some
                    &&& reports_busy(final(self).qspi.log().last())
                    &&& final(self).qspi.log().len() > old(self).qspi.log().len()
                },
                Err(FlashError::QspiError) => {
                    &&& final(self).qspi.log().len() > old(self).qspi.log().len()
                    &&& final(self).qspi.log().last().outcome is Failed
                },
                Err(_) => false,
            },
    {
        let ghost log = self.qspi.log();
        let ghost replies = self.qspi.replies();
        assert(log.take(log.len() as int) =~= log);
        loop
            invariant
                self.qspi.inv(),
                self.timeout == old(self).timeout,
                log == old(self).qspi.log(),
                replies == old(self).qspi.replies(),
                served_from(replies, log, self.qspi.log(), self.qspi.replies()),
                extends(log, self.qspi.log()),
                sent(self.qspi.log()) == sent(log),
                all_done(self.qspi.log(), log.len() as int),
                only_polls(self.qspi.log(), log.len() as int),
                self.timeout is None ==> trace(self.qspi.log()) == trace(log),
            decreases self.qspi.patience(),
        {
            let ghost middle = self.qspi.log();
            let ghost middle_replies = self.qspi.replies();
            let waited = self.wait_until_write_complete();
            proof {
                assert(self.qspi.log().take(log.len() as int) =~= middle.take(log.len() as int));
                lemma_done_so_far(log.len() as int, middle, self.qspi.log());
                assert(self.qspi.log().take(middle.len() as int) =~= middle);
                lemma_served_both(
                    replies,
                    log,
                    middle,
                    middle_replies,
                    self.qspi.log(),
                    self.qspi.replies(),
                );
            }
            match waited {
                Ok(()) => {
                    return Ok(());
                },
                Err(nb::Error::WouldBlock) => {},
                Err(nb::Error::Other(error)) => {
                    return Err(error);
                },
            }
        }
    }

    /// Erases one sector and waits until the chip has done so. With the chip
    /// busy nothing is sent but the read of the status register that found
    /// it so.
    #[verifier::rlimit(40)]
    pub fn erase_sector(&mut self, sector: &Sector) -> (result: Result<(), nb::Error<FlashError>>)
        requires
            old(self).qspi.inv(),
        ensures
            final(self).qspi.inv(),
            final(self).timeout == old(self).timeout,
            began_with_poll(old(self).qspi.log(), final(self).qspi.log()),
            sent_some_of(
                old(self).qspi.log(),
                final(self).qspi.log(),
                seq![bare(Command::WriteEnable), sector_erase(sector.spec_location())],
            ),
            (result is Err && result->Err_0 is WouldBlock) == reports_busy(
                final(self).qspi.log()[old(self).qspi.log().len() as int],
            ),
            result is Err && result->Err_0 is WouldBlock ==> trace(final(self).qspi.log()) == trace(
                old(self).qspi.log(),
            ),
            result is Ok && old(self).timeout is None ==> trace(final(self).qspi.log()) == trace(
                old(self).qspi.log(),
            ) + with_polls(seq![bare(Command::WriteEnable), sector_erase(sector.spec_location())]),
            served_from(
                old(self).qspi.replies(),
                old(self).qspi.log(),
                final(self).qspi.log(),
                final(self).qspi.replies(),
            ),
            done_before_last(final(self).qspi.log(), old(self).qspi.log().len() as int),
            match result {
                Ok(()) => {
                    &&& sent_all_of(
                        old(self).qspi.log(),
                        final(self).qspi.log(),
                        seq![bare(Command::WriteEnable), sector_erase(sector.spec_location())],
                    )
                    &&& operated(
                        old(self).qspi.log(),
                        final(self).qspi.log(),
                        seq![bare(Command::WriteEnable), sector_erase(sector.spec_location())],
                    )
                },
                Err(nb::Error::WouldBlock) => {
                    &&& polled(old(self).qspi.log(), final(self).qspi.log())
                    &&& final(self).qspi.patience() < old(self).qspi.patience()
                },
                Err(nb::Error::Other(FlashError::TimeOut)) => {
                    &&& old(self).timeout is Some
                    &&& reports_busy(final(self).qspi.log().last())
                    &&& final(self).qspi.log().len() > old(self).qspi.log().len()
                    &&& sent_all_of(
                        old(self).qspi.log(),
                        final(self).qspi.log(),
                        seq![bare(Command::WriteEnable), sector_erase(sector.spec_location())],
                    )
                },
                Err(nb::Error::Other(FlashError::QspiError)) => {
                    &&& final(self).qspi.log().len() > old(self).qspi.log().len()
                    &&& final(self).qspi.log().last().outcome is Failed
                },
                Err(nb::Error::Other(_)) => false,
            },
    {
        let location = sector.location();
        let ghost expected = seq![bare(Command::WriteEnable), sector_erase(sector.spec_location())];
        let ghost log = self.qspi.log();
        let ghost replies = self.qspi.replies();
        let ghost commands = sent(log);
        assert(log.take(log.len() as int) =~= log);
        let ghost traced = trace(log);
        let polled = Self::status(&mut self.qspi);
        proof {
            lemma_extends_push(log, log, self.qspi.log());
            assert(sent(self.qspi.log()) =~= commands + expected.take(0));
        }
        match polled {
            Ok(status) => {
                if status.write_in_progress {
                    return Err(nb::Error::WouldBlock);
                }
            },
            Err(error) => {
                return Err(error);
            },
        }
        let ghost middle = self.qspi.log();
        let ghost middle_replies = self.qspi.replies();
        let (enabled, _) = Self::execute_command(
            &mut self.qspi,
            Command::WriteEnable,
            None,
            Data::WriteNone,
        );
        proof {
            lemma_sent_push(middle, self.qspi.log().last());
            assert(self.qspi.log().take(middle.len() as int) =~= middle);
            lemma_served_both(
                replies,
                log,
                middle,
                middle_replies,
                self.qspi.log(),
                self.qspi.replies(),
            );
            lemma_trace_push(middle, self.qspi.log().last());
            assert(self.qspi.log().drop_last() =~= middle);
            lemma_extends_push(log, middle, self.qspi.log());
            assert(sent(self.qspi.log()) =~= commands + expected.take(1));
        }
        if let Err(error) = enabled {
            return Err(error);
        }
        let ghost middle = self.qspi.log();
        let ghost middle_replies = self.qspi.replies();
        let (erased, _) = Self::execute_command(
            &mut self.qspi,
            Command::SectorErase,
            Some(location),
            Data::WriteNone,
        );
        proof {
            lemma_sent_push(middle, self.qspi.log().last());
            assert(self.qspi.log().take(middle.len() as int) =~= middle);
            lemma_served_both(
                replies,
                log,
                middle,
                middle_replies,
                self.qspi.log(),
                self.qspi.replies(),
            );
            lemma_trace_push(middle, self.qspi.log().last());
            assert(self.qspi.log().drop_last() =~= middle);
            lemma_extends_push(log, middle, self.qspi.log());
            assert(sent(self.qspi.log()) =~= commands + expected);
            assert(expected.take(2) =~= expected);
        }
        if let Err(error) = erased {
            return Err(error);
        }
        let ghost middle = self.qspi.log();
        let ghost middle_replies = self.qspi.replies();
        assert(all_done(middle, log.len() as int));
        let waited = self.block_until_write_complete();
        proof {
            let now = self.qspi.log();
            assert(now.take(log.len() as int) =~= middle.take(log.len() as int));
            assert(now[log.len() as int] == now.take(middle.len() as int)[log.len() as int]);
            assert(now[log.len() as int + 1] == now.take(middle.len() as int)[log.len() as int + 1]);
            assert(now[log.len() as int + 2] == now.take(middle.len() as int)[log.len() as int + 2]);
            lemma_done_so_far(log.len() as int, middle, now);
            assert(self.qspi.log().take(middle.len() as int) =~= middle);
            lemma_served_both(
                replies,
                log,
                middle,
                middle_replies,
                self.qspi.log(),
                self.qspi.replies(),
            );
            lemma_with_polls_two(expected[0], expected[1]);
            if waited is Ok && self.timeout is None {
                assert(trace(now) =~= traced + with_polls(expected));
            }
        }
        match waited {
            Ok(()) => Ok(()),
            Err(error) => Err(nb::Error::Other(error)),
        }
    }

    /// Programs `bytes` at `address`, which have to lie within `page`, and
    /// waits until the chip has done so. With the chip busy nothing is sent
    /// but the read of the status register that found it so.
    #[verifier::rlimit(40)]
    pub fn write_page(&mut self, page: &Page, bytes: &[u8], address: Address) -> (result: Result<
        (),
        nb::Error<FlashError>,
    >)
        requires
            old(self).qspi.inv(),
            address.0 + bytes@.len() <= u32::MAX,
        ensures
            final(self).qspi.inv(),
            final(self).timeout == old(self).timeout,
            extends(old(self).qspi.log(), final(self).qspi.log()),
            sent_some_of(
                old(self).qspi.log(),
                final(self).qspi.log(),
                seq![bare(Command::WriteEnable), page_program(address.0, bytes@)],
            ),
            (result == Err::<(), nb::Error<FlashError>>(
                nb::Error::Other(FlashError::MisalignedAccess),
            )) == !(page.spec_location() <= address.0 && address.0 + bytes@.len()
                <= page.spec_end()),
            page.spec_location() <= address.0 && address.0 + bytes@.len() <= page.spec_end()
                ==> began_with_poll(old(self).qspi.log(), final(self).qspi.log()),
            (result is Err && result->Err_0 is WouldBlock) == (page.spec_location() <= address.0
                && address.0 + bytes@.len() <= page.spec_end() && reports_busy(
                final(self).qspi.log()[old(self).qspi.log().len() as int],
            )),
            result is Err && result->Err_0 is WouldBlock ==> trace(final(self).qspi.log()) == trace(
                old(self).qspi.log(),
            ),
            result is Ok && old(self).timeout is None ==> trace(final(self).qspi.log()) == trace(
                old(self).qspi.log(),
            ) + with_polls(seq![bare(Command::WriteEnable), page_program(address.0, bytes@)]),
            served_from(
                old(self).qspi.replies(),
                old(self).qspi.log(),
                final(self).qspi.log(),
                final(self).qspi.replies(),
            ),
            done_before_last(final(self).qspi.log(), old(self).qspi.log().len() as int),
            match result {
                Ok(()) => {
                    &&& sent_all_of(
                        old(self).qspi.log(),
                        final(self).qspi.log(),
                        seq![bare(Command::WriteEnable), page_program(address.0, bytes@)],
                    )
                    &&& operated(
                        old(self).qspi.log(),
                        final(self).qspi.log(),
                        seq![bare(Command::WriteEnable), page_program(address.0, bytes@)],
                    )
                },
                Err(nb::Error::WouldBlock) => {
                    &&& polled(old(self).qspi.log(), final(self).qspi.log())
                    &&& reports_busy(final(self).qspi.log().last())
                    &&& final(self).qspi.patience() < old(self).qspi.patience()
                },
                Err(nb::Error::Other(FlashError::MisalignedAccess)) => {
                    final(self).qspi.log() == old(self).qspi.log()
                },
                Err(nb::Error::Other(FlashError::TimeOut)) => {
                    &&& old(self).timeout is Some
                    &&& reports_busy(final(self).qspi.log().last())
                    &&& final(self).qspi.log().len() > old(self).qspi.log().len()
                    &&& sent_all_of(
                        old(self).qspi.log(),
                        final(self).qspi.log(),
                        seq![bare(Command::WriteEnable), page_program(address.0, bytes@)],
                    )
                },
                Err(nb::Error::Other(FlashError::QspiError)) => {
                    &&& final(self).qspi.log().len() > old(self).qspi.log().len()
                    &&& final(self).qspi.log().last().outcome is Failed
                },
                Err(nb::Error::Other(_)) => false,
            },
    {
        let ghost expected = seq![bare(Command::WriteEnable), page_program(address.0, bytes@)];
        let ghost log = self.qspi.log();
        let ghost replies = self.qspi.replies();
        let ghost commands = sent(log);
        assert(log.take(log.len() as int) =~= log);
        assert(commands =~= commands + expected.take(0));
        if address.0 < page.location().0 || address.0 + bytes.len() as u32 > page.end().0 {
            return Err(nb::Error::Other(FlashError::MisalignedAccess));
        }
        let ghost traced = trace(log);
        let polled = Self::status(&mut self.qspi);
        proof {
            lemma_extends_push(log, log, self.qspi.log());
        }
        match polled {
            Ok(status) => {
                if status.write_in_progress {
                    return Err(nb::Error::WouldBlock);
                }
            },
            Err(error) => {
                return Err(error);
            },
        }
        let ghost middle = self.qspi.log();
        let ghost middle_replies = self.qspi.replies();
        let (enabled, _) = Self::execute_command(
            &mut self.qspi,
            Command::WriteEnable,
            None,
            Data::WriteNone,
        );
        proof {
            lemma_sent_push(middle, self.qspi.log().last());
            assert(self.qspi.log().take(middle.len() as int) =~= middle);
            lemma_served_both(
                replies,
                log,
                middle,
                middle_replies,
                self.qspi.log(),
                self.qspi.replies(),
            );
            lemma_trace_push(middle, self.qspi.log().last());
            assert(self.qspi.log().drop_last() =~= middle);
            lemma_extends_push(log, middle, self.qspi.log());
            assert(sent(self.qspi.log()) =~= commands + expected.take(1));
        }
        if let Err(error) = enabled {
            return Err(error);
        }
        let ghost middle = self.qspi.log();
        let ghost middle_replies = self.qspi.replies();
        let (programmed, _) = Self::execute_command(
            &mut self.qspi,
            Command::PageProgram,
            Some(address),
            Data::Write(slice_to_vec(bytes)),
        );
        proof {
            lemma_sent_push(middle, self.qspi.log().last());
            assert(self.qspi.log().take(middle.len() as int) =~= middle);
            lemma_served_both(
                replies,
                log,
                middle,
                middle_replies,
                self.qspi.log(),
                self.qspi.replies(),
            );
            lemma_trace_push(middle, self.qspi.log().last());
            assert(self.qspi.log().drop_last() =~= middle);
            lemma_extends_push(log, middle, self.qspi.log());
            assert(sent(self.qspi.log()) =~= commands + expected);
            assert(expected.take(2) =~= expected);
        }
        if let Err(error) = programmed {
            return Err(error);
        }
        let ghost middle = self.qspi.log();
        let ghost middle_replies = self.qspi.replies();
        assert(all_done(middle, log.len() as int));
        let waited = self.block_until_write_complete();
        proof {
            let now = self.qspi.log();
            assert(now.take(log.len() as int) =~= middle.take(log.len() as int));
            assert(now[log.len() as int] == now.take(middle.len() as int)[log.len() as int]);
            assert(now[log.len() as int + 1] == now.take(middle.len() as int)[log.len() as int + 1]);
            assert(now[log.len() as int + 2] == now.take(middle.len() as int)[log.len() as int + 2]);
            lemma_done_so_far(log.len() as int, middle, now);
            assert(self.qspi.log().take(middle.len() as int) =~= middle);
            lemma_served_both(
                replies,
                log,
                middle,
                middle_replies,
                self.qspi.log(),
                self.qspi.replies(),
            );
            lemma_with_polls_two(expected[0], expected[1]);
            if waited is Ok && self.timeout is None {
                assert(trace(now) =~= traced + with_polls(expected));
            }
        }
        match waited {
            Ok(()) => Ok(()),
            Err(error) => Err(nb::Error::Other(error)),
        }
    }

    /// Whether `len` bytes at `address` all lie on the chip.
    pub open spec fn reachable(address: Address, len: nat) -> bool {
        BASE_ADDRESS <= address.0 && address.0 + len <= BASE_ADDRESS + MEMORY_SIZE
    }



    /// `write`, tried again for as long as the chip is busy.
    #[verifier::rlimit(40)]
    pub fn block_write(&mut self, address: Address, bytes: &[u8]) -> (result: Result<
        (),
        FlashError,
    >)
        requires
            old(self).qspi.inv(),
            address.0 + bytes@.len() <= u32::MAX,
        ensures
            final(self).qspi.inv(),
            final(self).timeout == old(self).timeout,
            extends(old(self).qspi.log(), final(self).qspi.log()),
            wrote_some_of(
                old(self).qspi.log(),
                final(self).qspi.log(),
                address.0 as nat,
                bytes@,
            ),
            result is Ok && Self::reachable(address, bytes@.len()) ==> writes(
                final(self).qspi.log(),
                old(self).qspi.log().len() as int,
                address.0 as int,
                bytes@,
            ),
            served_from(
                old(self).qspi.replies(),
                old(self).qspi.log(),
                final(self).qspi.log(),
                final(self).qspi.replies(),
            ),
            done_before_last(final(self).qspi.log(), old(self).qspi.log().len() as int),
            result is Ok ==> all_done(final(self).qspi.log(), old(self).qspi.log().len() as int),
            match result {
                Ok(()) => exists|existing: Seq<Seq<u8>>, places: Seq<int>|
                    {
                        &&& #[trigger] brought_back(
                            final(self).qspi.log(),
                            old(self).qspi.log().len() as int,
                            memory::overlaps_of(
                                sectors_of_chip(),
                                address.0 as nat,
                                bytes@.len(),
                            ),
                            existing,
                            places,
                            bytes@,
                            memory::overlaps_of(
                                sectors_of_chip(),
                                address.0 as nat,
                                bytes@.len(),
                            ).len() as int,
                        )
                        &&& sent_all_of(
                            old(self).qspi.log(),
                            final(self).qspi.log(),
                            write_commands(
                                memory::overlaps_of(
                                    sectors_of_chip(),
                                    address.0 as nat,
                                    bytes@.len(),
                                ),
                                existing,
                                bytes@,
                            ),
                        )
                        &&& old(self).timeout is None ==> trace(final(self).qspi.log()) == trace(
                            old(self).qspi.log(),
                        ).push(query(Command::ReadStatus)) + with_polls(
                            write_commands(
                                memory::overlaps_of(
                                    sectors_of_chip(),
                                    address.0 as nat,
                                    bytes@.len(),
                                ),
                                existing,
                                bytes@,
                            ),
                        )
                    },
                Err(FlashError::TimeOut) => {
                    &&& old(self).timeout is Some
                    &&& reports_busy(final(self).qspi.log().last())
                    &&& final(self).qspi.log().len() > old(self).qspi.log().len()
                },
                Err(FlashError::QspiError) => {
                    &&& final(self).qspi.log().len() > old(self).qspi.log().len()
                    &&& final(self).qspi.log().last().outcome is Failed
                },
                Err(_) => false,
            },
    {
        let ghost log = self.qspi.log();
        let ghost replies = self.qspi.replies();
        assert(log.take(log.len() as int) =~= log);
        loop
            invariant
                self.qspi.inv(),
                self.timeout == old(self).timeout,
                log == old(self).qspi.log(),
                replies == old(self).qspi.replies(),
                served_from(replies, log, self.qspi.log(), self.qspi.replies()),
                address.0 + bytes@.len() <= u32::MAX,
                extends(log, self.qspi.log()),
                sent(self.qspi.log()) == sent(log),
                all_done(self.qspi.log(), log.len() as int),
                trace(self.qspi.log()) == trace(log),
            decreases self.qspi.patience(),
        {
            let ghost middle = self.qspi.log();
            let ghost middle_replies = self.qspi.replies();
            let written = self.write(address, bytes);
            proof {
                let now = self.qspi.log();
                assert(now.take(log.len() as int) =~= now.take(middle.len() as int).take(
                    log.len() as int,
                ));
                lemma_done_so_far(log.len() as int, middle, now);
                assert(self.qspi.log().take(middle.len() as int) =~= middle);
                lemma_served_both(
                    replies,
                    log,
                    middle,
                    middle_replies,
                    self.qspi.log(),
                    self.qspi.replies(),
                );
                assert(wrote_some_of(log, now, address.0 as nat, bytes@)) by {
                    let pieces = memory::overlaps_of(
                        sectors_of_chip(),
                        address.0 as nat,
                        bytes@.len(),
                    );
                    let held = choose|held: Seq<Seq<u8>>|
                        held.len() == pieces.len() && #[trigger] sent_some_of(
                            middle,
                            now,
                            write_commands(pieces, held, bytes@),
                        );
                    let all = write_commands(pieces, held, bytes@);
                    let n = choose|n: int|
                        0 <= n <= all.len() && sent(now) == sent(middle) + #[trigger] all.take(n);
                    assert(sent(now) == sent(log) + all.take(n));
                    assert(sent_some_of(log, now, all));
                }
                if written is Ok {
                    let pieces = memory::overlaps_of(
                        sectors_of_chip(),
                        address.0 as nat,
                        bytes@.len(),
                    );
                    let (held, places) = choose|held: Seq<Seq<u8>>, places: Seq<int>|
                        {
                            &&& #[trigger] brought_back(
                                now,
                                middle.len() as int,
                                pieces,
                                held,
                                places,
                                bytes@,
                                pieces.len() as int,
                            )
                            &&& sent_all_of(middle, now, write_commands(pieces, held, bytes@))
                            &&& self.timeout is None ==> trace(now) == trace(middle).push(
                                query(Command::ReadStatus),
                            ) + with_polls(write_commands(pieces, held, bytes@))
                        };
                    assert(now.take(middle.len() as int) =~= middle);
                    assert(now.take(log.len() as int) =~= log);
                    assert(brought_back(
                        now,
                        log.len() as int,
                        pieces,
                        held,
                        places,
                        bytes@,
                        pieces.len() as int,
                    ));
                    assert(sent_all_of(log, now, write_commands(pieces, held, bytes@)));
                    if Self::reachable(address, bytes@.len()) {
                        assert forall|states: Seq<Chip>| #[trigger] history(now, states) implies states.last().memory
                            == crate::hal::flash::overlaid(
                            states[log.len() as int].memory,
                            address.0 as int,
                            bytes@,
                        ) by {
                            lemma_polls_before(now, states, log.len() as int, middle.len() as int);
                        }
                    }
                }
            }
            match written {
                Ok(()) => {
                    return Ok(());
                },
                Err(nb::Error::WouldBlock) => {},
                Err(nb::Error::Other(error)) => {
                    return Err(error);
                },
            }
        }
    }

    /// `write_page`, tried again for as long as the chip is busy.
    pub fn block_write_page(&mut self, page: &Page, bytes: &[u8], address: Address) -> (result:
        Result<(), FlashError>)
        requires
            old(self).qspi.inv(),
            address.0 + bytes@.len() <= u32::MAX,
        ensures
            final(self).qspi.inv(),
            final(self).timeout == old(self).timeout,
            extends(old(self).qspi.log(), final(self).qspi.log()),
            sent_some_of(
                old(self).qspi.log(),
                final(self).qspi.log(),
                seq![bare(Command::WriteEnable), page_program(address.0, bytes@)],
            ),
            (result == Err::<(), FlashError>(FlashError::MisalignedAccess)) == !(
            page.spec_location() <= address.0 && address.0 + bytes@.len() <= page.spec_end()),
            result is Ok && old(self).timeout is None ==> trace(final(self).qspi.log()) == trace(
                old(self).qspi.log(),
            ) + with_polls(seq![bare(Command::WriteEnable), page_program(address.0, bytes@)]),
            served_from(
                old(self).qspi.replies(),
                old(self).qspi.log(),
                final(self).qspi.log(),
                final(self).qspi.replies(),
            ),
            done_before_last(final(self).qspi.log(), old(self).qspi.log().len() as int),
            match result {
                Ok(()) => {
                    &&& sent_all_of(
                        old(self).qspi.log(),
                        final(self).qspi.log(),
                        seq![bare(Command::WriteEnable), page_program(address.0, bytes@)],
                    )
                    &&& all_done(final(self).qspi.log(), old(self).qspi.log().len() as int)
                },
                Err(FlashError::MisalignedAccess) => final(self).qspi.log() == old(self).qspi.log(),
                Err(FlashError::TimeOut) => {
                    &&& old(self).timeout is Some
                    &&& reports_busy(final(self).qspi.log().last())
                    &&& final(self).qspi.log().len() > old(self).qspi.log().len()
                },
                Err(FlashError::QspiError) => {
                    &&& final(self).qspi.log().len() > old(self).qspi.log().len()
                    &&& final(self).qspi.log().last().outcome is Failed
                },
                Err(_) => false,
            },
    {
        let ghost log = self.qspi.log();
        let ghost replies = self.qspi.replies();
        assert(log.take(log.len() as int) =~= log);
        loop
            invariant
                self.qspi.inv(),
                self.timeout == old(self).timeout,
                log == old(self).qspi.log(),
                replies == old(self).qspi.replies(),
                served_from(replies, log, self.qspi.log(), self.qspi.replies()),
                address.0 + bytes@.len() <= u32::MAX,
                extends(log, self.qspi.log()),
                sent(self.qspi.log()) == sent(log),
                (page.spec_location() <= address.0 && address.0 + bytes@.len()
                    <= page.spec_end()) || self.qspi.log() == log,
                all_done(self.qspi.log(), log.len() as int),
                trace(self.qspi.log()) == trace(log),
            decreases self.qspi.patience(),
        {
            let ghost middle = self.qspi.log();
            let ghost middle_replies = self.qspi.replies();
            let written = self.write_page(page, bytes, address);
            proof {
                assert(self.qspi.log().take(log.len() as int) =~= middle.take(log.len() as int));
                lemma_done_so_far(log.len() as int, middle, self.qspi.log());
                assert(self.qspi.log().take(middle.len() as int) =~= middle);
                lemma_served_both(
                    replies,
                    log,
                    middle,
                    middle_replies,
                    self.qspi.log(),
                    self.qspi.replies(),
                );
            }
            match written {
                Ok(()) => {
                    return Ok(());
                },
                Err(nb::Error::WouldBlock) => {},
                Err(nb::Error::Other(error)) => {
                    return Err(error);
                },
            }
        }
    }

    /// `erase_sector`, tried again for as long as the chip is busy.
    pub fn block_erase_sector(&mut self, sector: &Sector) -> (result: Result<(), FlashError>)
        requires
            old(self).qspi.inv(),
        ensures
            final(self).qspi.inv(),
            final(self).timeout == old(self).timeout,
            extends(old(self).qspi.log(), final(self).qspi.log()),
            sent_some_of(
                old(self).qspi.log(),
                final(self).qspi.log(),
                seq![bare(Command::WriteEnable), sector_erase(sector.spec_location())],
            ),
            result is Ok && old(self).timeout is None ==> trace(final(self).qspi.log()) == trace(
                old(self).qspi.log(),
            ) + with_polls(seq![bare(Command::WriteEnable), sector_erase(sector.spec_location())]),
            served_from(
                old(self).qspi.replies(),
                old(self).qspi.log(),
                final(self).qspi.log(),
                final(self).qspi.replies(),
            ),
            done_before_last(final(self).qspi.log(), old(self).qspi.log().len() as int),
            match result {
                Ok(()) => {
                    &&& sent_all_of(
                        old(self).qspi.log(),
                        final(self).qspi.log(),
                        seq![bare(Command::WriteEnable), sector_erase(sector.spec_location())],
                    )
                    &&& all_done(final(self).qspi.log(), old(self).qspi.log().len() as int)
                },
                Err(FlashError::TimeOut) => {
                    &&& old(self).timeout is Some
                    &&& reports_busy(final(self).qspi.log().last())
                    &&& final(self).qspi.log().len() > old(self).qspi.log().len()
                },
                Err(FlashError::QspiError) => {
                    &&& final(self).qspi.log().len() > old(self).qspi.log().len()
                    &&& final(self).qspi.log().last().outcome is Failed
                },
                Err(_) => false,
            },
    {
        let ghost log = self.qspi.log();
        let ghost replies = self.qspi.replies();
        assert(log.take(log.len() as int) =~= log);
        loop
            invariant
                self.qspi.inv(),
                self.timeout == old(self).timeout,
                log == old(self).qspi.log(),
                replies == old(self).qspi.replies(),
                served_from(replies, log, self.qspi.log(), self.qspi.replies()),
                extends(log, self.qspi.log()),
                sent(self.qspi.log()) == sent(log),
                all_done(self.qspi.log(), log.len() as int),
                trace(self.qspi.log()) == trace(log),
            decreases self.qspi.patience(),
        {
            let ghost middle = self.qspi.log();
            let ghost middle_replies = self.qspi.replies();
            let erased = self.erase_sector(sector);
            proof {
                assert(self.qspi.log().take(log.len() as int) =~= middle.take(log.len() as int));
                lemma_done_so_far(log.len() as int, middle, self.qspi.log());
                assert(self.qspi.log().take(middle.len() as int) =~= middle);
                lemma_served_both(
                    replies,
                    log,
                    middle,
                    middle_replies,
                    self.qspi.log(),
                    self.qspi.replies(),
                );
            }
            match erased {
                Ok(()) => {
                    return Ok(());
                },
                Err(nb::Error::WouldBlock) => {},
                Err(nb::Error::Other(error)) => {
                    return Err(error);
                },
            }
        }
    }

    /// `read`, tried again for as long as the chip is busy.
    #[verifier::rlimit(40)]
    pub fn block_read(&mut self, address: Address, bytes: &mut [u8]) -> (result: Result<
        (),
        FlashError,
    >)
        requires
            old(self).qspi.inv(),
        ensures
            final(self).qspi.inv(),
            final(self).timeout == old(self).timeout,
            final(bytes)@.len() == old(bytes)@.len(),
            extends(old(self).qspi.log(), final(self).qspi.log()),
            (result == Err::<(), FlashError>(FlashError::AddressOutOfRange)) == !Self::reachable(
                address,
                old(bytes)@.len(),
            ),
            sent_some_of(
                old(self).qspi.log(),
                final(self).qspi.log(),
                seq![on_the_bus(Command::Read, Some(address.0), DataView::Read(old(bytes)@))],
            ),
            result is Ok ==> trace(final(self).qspi.log()) == trace(
                old(self).qspi.log(),
            ) + with_polls(seq![on_the_bus(Command::Read, Some(address.0), DataView::Read(old(bytes)@))]),
            result is Ok ==> reads(
                final(self).qspi.log(),
                old(self).qspi.log().len() as int,
                address.0 as int,
                final(bytes)@,
            ),
            served_from(
                old(self).qspi.replies(),
                old(self).qspi.log(),
                final(self).qspi.log(),
                final(self).qspi.replies(),
            ),
            done_before_last(final(self).qspi.log(), old(self).qspi.log().len() as int),
            match result {
                Ok(()) => {
                    &&& all_done(final(self).qspi.log(), old(self).qspi.log().len() as int)
                    &&& final(self).qspi.log().len() > old(self).qspi.log().len()
                    &&& sent(final(self).qspi.log()) == sent(old(self).qspi.log()).push(
                        on_the_bus(Command::Read, Some(address.0), DataView::Read(old(bytes)@)),
                    )
                    &&& final(self).qspi.log().last() == (Exchange {
                        sent: on_the_bus(
                            Command::Read,
                            Some(address.0),
                            DataView::Read(old(bytes)@),
                        ),
                        returned: DataView::Read(final(bytes)@),
                        outcome: Outcome::Done,
                    })
                },
                Err(FlashError::AddressOutOfRange) => {
                    &&& final(self).qspi.log() == old(self).qspi.log()
                    &&& final(bytes)@ == old(bytes)@
                },
                Err(FlashError::QspiError) => {
                    &&& final(self).qspi.log().len() > old(self).qspi.log().len()
                    &&& final(self).qspi.log().last().outcome is Failed
                    &&& final(bytes)@ == old(bytes)@
                },
                Err(_) => false,
            },
    {
        let ghost log = self.qspi.log();
        let ghost replies = self.qspi.replies();
        assert(log.take(log.len() as int) =~= log);
        loop
            invariant
                self.qspi.inv(),
                self.timeout == old(self).timeout,
                log == old(self).qspi.log(),
                replies == old(self).qspi.replies(),
                served_from(replies, log, self.qspi.log(), self.qspi.replies()),
                bytes@ == old(bytes)@,
                extends(log, self.qspi.log()),
                sent(self.qspi.log()) == sent(log),
                Self::reachable(address, bytes@.len()) || self.qspi.log() == log,
                all_done(self.qspi.log(), log.len() as int),
                trace(self.qspi.log()) == trace(log),
            decreases self.qspi.patience(),
        {
            let ghost middle = self.qspi.log();
            let ghost middle_replies = self.qspi.replies();
            let read = self.read(address, bytes);
            proof {
                let now = self.qspi.log();
                assert(now.take(log.len() as int) =~= middle.take(log.len() as int));
                lemma_done_so_far(log.len() as int, middle, now);
                assert(self.qspi.log().take(middle.len() as int) =~= middle);
                lemma_served_both(
                    replies,
                    log,
                    middle,
                    middle_replies,
                    self.qspi.log(),
                    self.qspi.replies(),
                );
                assert(sent_some_of(
                    log,
                    now,
                    seq![on_the_bus(Command::Read, Some(address.0), DataView::Read(old(bytes)@))],
                )) by {
                    let expected = seq![
                        on_the_bus(Command::Read, Some(address.0), DataView::Read(old(bytes)@)),
                    ];
                    let n = choose|n: int|
                        0 <= n <= expected.len() && sent(now) == sent(middle)
                            + #[trigger] expected.take(n);
                    assert(sent(now) == sent(log) + expected.take(n));
                }
                if read is Ok {
                    assert forall|states: Seq<Chip>| #[trigger] history(now, states) implies states.last().memory
                        == states[log.len() as int].memory && bytes@ == states[log.len() as int].memory.subrange(
                        address.0 as int,
                        address.0 + bytes@.len(),
                    ) by {
                        assert(now.take(middle.len() as int) =~= middle);
                        assert(now.take(log.len() as int) =~= log);
                        lemma_polls_before(now, states, log.len() as int, middle.len() as int);
                    }
                    assert(now.drop_last().drop_last() =~= middle);
                    assert(now.drop_last().last() == now[middle.len() as int]);
                    lemma_sent_push(now.drop_last().drop_last(), now.drop_last().last());
                    assert(now.drop_last() =~= now.drop_last().drop_last().push(
                        now.drop_last().last(),
                    ));
                    lemma_sent_push(now.drop_last(), now.last());
                    assert(now =~= now.drop_last().push(now.last()));
                    assert(!is_poll(now.last().sent)) by {
                        assert(Command::Read.spec_opcode() != Command::ReadStatus.spec_opcode());
                    }
                }
            }
            match read {
                Ok(()) => {
                    return Ok(());
                },
                Err(nb::Error::WouldBlock) => {},
                Err(nb::Error::Other(error)) => {
                    return Err(error);
                },
            }
        }
    }

    /// Programs `data`, which starts at `base`, into the pages of `sector`
    /// that it touches, by ascending address.
    #[verifier::rlimit(40)]
    pub fn program_pages(&mut self, sector: &Sector, data: &[u8], base: Address) -> (result:
        Result<(), FlashError>)
        requires
            old(self).qspi.inv(),
            base.0 + data@.len() <= u32::MAX,
        ensures
            final(self).qspi.inv(),
            final(self).timeout == old(self).timeout,
            extends(old(self).qspi.log(), final(self).qspi.log()),
            sent_some_of(
                old(self).qspi.log(),
                final(self).qspi.log(),
                page_programs(
                    memory::overlaps_of(pages_of(sector.spec_location()), base.0 as nat, data@.len()),
                    data@,
                ),
            ),
            result is Ok && old(self).timeout is None ==> trace(final(self).qspi.log()) == trace(
                old(self).qspi.log(),
            ) + with_polls(
                page_programs(
                    memory::overlaps_of(pages_of(sector.spec_location()), base.0 as nat, data@.len()),
                    data@,
                ),
            ),
            served_from(
                old(self).qspi.replies(),
                old(self).qspi.log(),
                final(self).qspi.log(),
                final(self).qspi.replies(),
            ),
            done_before_last(final(self).qspi.log(), old(self).qspi.log().len() as int),
            result is Ok ==> all_done(final(self).qspi.log(), old(self).qspi.log().len() as int),
            match result {
                Ok(()) => sent_all_of(
                    old(self).qspi.log(),
                    final(self).qspi.log(),
                    page_programs(
                        memory::overlaps_of(
                            pages_of(sector.spec_location()),
                            base.0 as nat,
                            data@.len(),
                        ),
                        data@,
                    ),
                ),
                Err(FlashError::TimeOut) => {
                    &&& old(self).timeout is Some
                    &&& reports_busy(final(self).qspi.log().last())
                    &&& final(self).qspi.log().len() > old(self).qspi.log().len()
                },
                Err(FlashError::QspiError) => {
                    &&& final(self).qspi.log().len() > old(self).qspi.log().len()
                    &&& final(self).qspi.log().last().outcome is Failed
                },
                Err(_) => false,
            },
    {
        let ghost log = self.qspi.log();
        let ghost replies = self.qspi.replies();
        let ghost commands = sent(log);
        let pages = sector.pages();
        let pieces = memory::overlaps(pages.as_slice(), data.len(), base);
        let ghost bounds = pages_of(sector.spec_location());
        let ghost expected = page_programs(pieces@, data@);
        proof {
            assert(memory::spans::<Address, Page>(pages@) =~= bounds);
            memory::lemma_overlaps_fit(bounds, base.0 as nat, data@.len());
            assert(log.take(log.len() as int) =~= log);
            assert(pieces@.take(0) =~= Seq::<memory::Overlap>::empty());
            assert(commands =~= commands + page_programs(pieces@.take(0), data@));
            assert(trace(log) =~= trace(log) + with_polls(page_programs(pieces@.take(0), data@)));
        }
        let mut i: usize = 0;
        while i < pieces.len()
            invariant
                self.qspi.inv(),
                self.timeout == old(self).timeout,
                log == old(self).qspi.log(),
                replies == old(self).qspi.replies(),
                served_from(replies, log, self.qspi.log(), self.qspi.replies()),
                commands == sent(log),
                base.0 + data@.len() <= u32::MAX,
                i <= pieces@.len(),
                pages@.len() == PAGES_PER_SECTOR,
                bounds == pages_of(sector.spec_location()),
                bounds == memory::spans::<Address, Page>(pages@),
                pieces@ == memory::overlaps_of(bounds, base.0 as nat, data@.len()),
                expected == page_programs(pieces@, data@),
                forall|k: int|
                    0 <= k < pieces@.len() ==> memory::fits(#[trigger] pieces@[k], bounds, base.0 as nat)
                        && pieces@[k].end <= data@.len(),
                extends(log, self.qspi.log()),
                sent(self.qspi.log()) == commands + page_programs(pieces@.take(i as int), data@),
                all_done(self.qspi.log(), log.len() as int),
                self.timeout is None ==> trace(self.qspi.log()) == trace(log) + with_polls(
                    page_programs(pieces@.take(i as int), data@),
                ),
            decreases pieces@.len() - i,
        {
            let piece = pieces[i];
            let ghost middle = self.qspi.log();
            let ghost middle_replies = self.qspi.replies();
            let ghost so_far = page_programs(pieces@.take(i as int), data@);
            assert(memory::fits(piece, bounds, base.0 as nat));
            let page = &pages[piece.block];
            let chunk = slice_subrange(data, piece.start, piece.end);
            let written = self.block_write_page(page, chunk, Address(piece.address));
            proof {
                let step = seq![
                    bare(Command::WriteEnable),
                    page_program(piece.address, chunk@),
                ];
                assert(self.qspi.log().take(log.len() as int) =~= middle.take(log.len() as int));
                lemma_done_so_far(log.len() as int, middle, self.qspi.log());
                assert(self.qspi.log().take(middle.len() as int) =~= middle);
                lemma_served_both(
                    replies,
                    log,
                    middle,
                    middle_replies,
                    self.qspi.log(),
                    self.qspi.replies(),
                );
                assert(pieces@.take(i + 1).drop_last() =~= pieces@.take(i as int));
                assert(page_programs(pieces@.take(i + 1), data@) =~= so_far + step);
                lemma_page_programs_prefix(pieces@, data@, i as int);
                lemma_page_programs_prefix(pieces@, data@, i + 1);
                let n = choose|n: int|
                    0 <= n <= step.len() && sent(self.qspi.log()) == sent(middle)
                        + #[trigger] step.take(n);
                assert(commands + so_far + step.take(n) =~= commands + expected.take(2 * i + n))
                    by {
                    assert(so_far + step == expected.take(2 * i + 2));
                    assert(so_far == expected.take(2 * i));
                    assert((so_far + step).take(2 * i + n) =~= so_far + step.take(n));
                    assert(expected.take(2 * i + 2).take(2 * i + n) =~= expected.take(2 * i + n));
                }
                assert(sent(self.qspi.log()) == commands + expected.take(2 * i + n));
                if written is Ok {
                    assert(sent(self.qspi.log()) =~= commands + (so_far + step));
                    lemma_with_polls_both(so_far, step);
                    if self.timeout is None {
                        assert(trace(self.qspi.log()) =~= trace(log) + with_polls(so_far + step));
                    }
                }
            }
            if let Err(error) = written {
                return Err(error);
            }
            i += 1;
        }
        proof {
            assert(pieces@.take(i as int) =~= pieces@);
            assert(expected.take(expected.len() as int) =~= expected);
            lemma_page_programs_prefix(pieces@, data@, pieces@.len() as int);
        }
        Ok(())
    }

    /// Writes `bytes` at `address` into `sector`, given what the sector
    /// holds. Bytes that are a bit subset of what the sector holds at the
    /// place are programmed as they are, and nothing is erased. Otherwise
    /// the sector is erased and programmed again as a whole, with `bytes`
    /// over what it held.
    #[verifier::rlimit(40)]
    pub fn program_sector(
        &mut self,
        sector: &Sector,
        existing: Vec<u8>,
        bytes: &[u8],
        address: Address,
    ) -> (result: Result<(), FlashError>)
        requires
            old(self).qspi.inv(),
            existing@.len() == SECTOR_SIZE,
            sector.spec_location() <= address.0,
            address.0 + bytes@.len() <= sector.spec_end(),
        ensures
            final(self).qspi.inv(),
            final(self).timeout == old(self).timeout,
            extends(old(self).qspi.log(), final(self).qspi.log()),
            sent_some_of(
                old(self).qspi.log(),
                final(self).qspi.log(),
                sector_commands(sector.spec_location(), existing@, bytes@, address.0),
            ),
            result is Ok && old(self).timeout is None ==> trace(final(self).qspi.log()) == trace(
                old(self).qspi.log(),
            ) + with_polls(sector_commands(sector.spec_location(), existing@, bytes@, address.0)),
            served_from(
                old(self).qspi.replies(),
                old(self).qspi.log(),
                final(self).qspi.log(),
                final(self).qspi.replies(),
            ),
            done_before_last(final(self).qspi.log(), old(self).qspi.log().len() as int),
            result is Ok ==> all_done(final(self).qspi.log(), old(self).qspi.log().len() as int),
            match result {
                Ok(()) => sent_all_of(
                    old(self).qspi.log(),
                    final(self).qspi.log(),
                    sector_commands(sector.spec_location(), existing@, bytes@, address.0),
                ),
                Err(FlashError::TimeOut) => {
                    &&& old(self).timeout is Some
                    &&& reports_busy(final(self).qspi.log().last())
                    &&& final(self).qspi.log().len() > old(self).qspi.log().len()
                },
                Err(FlashError::QspiError) => {
                    &&& final(self).qspi.log().len() > old(self).qspi.log().len()
                    &&& final(self).qspi.log().last().outcome is Failed
                },
                Err(_) => false,
            },
    {
        let ghost log = self.qspi.log();
        let ghost replies = self.qspi.replies();
        let ghost commands = sent(log);
        let ghost held = existing@;
        proof {
            use_type_invariant(sector);
        }
        let location = sector.location();
        let offset = (address.0 - location.0) as usize;
        let mut sector_data = existing;
        assert(held.skip(offset as int) =~= held.subrange(offset as int, SECTOR_SIZE as int));
        if is_subset_of(bytes, slice_subrange(sector_data.as_slice(), offset, SECTOR_SIZE)) {
            self.program_pages(sector, bytes, address)
        } else {
            let ghost erase = seq![
                bare(Command::WriteEnable),
                sector_erase(sector.spec_location()),
            ];
            let ghost programs = page_programs(
                memory::overlaps_of(
                    pages_of(sector.spec_location()),
                    sector.spec_location(),
                    SECTOR_SIZE as nat,
                ),
                merged(held, offset as int, bytes@),
            );
            let erased = self.block_erase_sector(sector);
            proof {
                let n = choose|n: int|
                    0 <= n <= erase.len() && sent(self.qspi.log()) == commands
                        + #[trigger] erase.take(n);
                assert(erase.take(n) =~= (erase + programs).take(n));
            }
            if let Err(error) = erased {
                return Err(error);
            }
            let mut i: usize = 0;
            while i < bytes.len()
                invariant
                    i <= bytes@.len(),
                    offset + bytes@.len() <= SECTOR_SIZE,
                    held.len() == SECTOR_SIZE,
                    sector_data@.len() == SECTOR_SIZE,
                    forall|j: int|
                        0 <= j < SECTOR_SIZE ==> sector_data@[j] == if offset <= j < offset + i {
                            bytes@[j - offset]
                        } else {
                            held[j]
                        },
                decreases bytes@.len() - i,
            {
                sector_data[offset + i] = bytes[i];
                i += 1;
            }
            assert(sector_data@ =~= merged(held, offset as int, bytes@));
            let ghost middle = self.qspi.log();
            let ghost middle_replies = self.qspi.replies();
            let programmed = self.program_pages(sector, sector_data.as_slice(), location);
            proof {
                assert(self.qspi.log().take(log.len() as int) =~= middle.take(log.len() as int));
                lemma_done_so_far(log.len() as int, middle, self.qspi.log());
                assert(self.qspi.log().take(middle.len() as int) =~= middle);
                lemma_served_both(
                    replies,
                    log,
                    middle,
                    middle_replies,
                    self.qspi.log(),
                    self.qspi.replies(),
                );
                let n = choose|n: int|
                    0 <= n <= programs.len() && sent(self.qspi.log()) == sent(middle)
                        + #[trigger] programs.take(n);
                assert(commands + erase + programs.take(n) =~= commands + (erase + programs).take(
                    2 + n,
                ));
                if programmed is Ok {
                    assert(commands + erase + programs =~= commands + (erase + programs));
                    lemma_with_polls_both(erase, programs);
                    if self.timeout is None {
                        assert(trace(self.qspi.log()) =~= trace(log) + with_polls(
                            erase + programs,
                        ));
                    }
                }
            }
            programmed
        }
    }

    /// Writes `bytes` at `address` into `sector`: reads what the sector
    /// holds, and then programs it, after an erase where one is needed.
    #[verifier::rlimit(40)]
    pub fn write_sector(&mut self, sector: &Sector, bytes: &[u8], address: Address) -> (result:
        Result<(), FlashError>)
        requires
            old(self).qspi.inv(),
            sector.spec_location() <= address.0,
            address.0 + bytes@.len() <= sector.spec_end(),
        ensures
            final(self).qspi.inv(),
            final(self).timeout == old(self).timeout,
            extends(old(self).qspi.log(), final(self).qspi.log()),
            exists|held: Seq<u8>|
                held.len() == SECTOR_SIZE && #[trigger] sent_some_of(
                    old(self).qspi.log(),
                    final(self).qspi.log(),
                    seq![sector_read(sector.spec_location())] + sector_commands(
                        sector.spec_location(),
                        held,
                        bytes@,
                        address.0,
                    ),
                ),
            served_from(
                old(self).qspi.replies(),
                old(self).qspi.log(),
                final(self).qspi.log(),
                final(self).qspi.replies(),
            ),
            done_before_last(final(self).qspi.log(), old(self).qspi.log().len() as int),
            result is Ok ==> all_done(final(self).qspi.log(), old(self).qspi.log().len() as int),
            match result {
                Ok(()) => exists|k: int|
                    {
                        &&& old(self).qspi.log().len() <= k < final(self).qspi.log().len()
                        &&& (#[trigger] final(self).qspi.log()[k]).sent == sector_read(
                            sector.spec_location(),
                        )
                        &&& final(self).qspi.log()[k].outcome is Done
                        &&& read_back(final(self).qspi.log()[k]).len() == SECTOR_SIZE
                        &&& sent(final(self).qspi.log().take(k)) == sent(old(self).qspi.log())
                        &&& old(self).timeout is None ==> trace(final(self).qspi.log()) == trace(
                            old(self).qspi.log(),
                        ) + with_polls(
                            seq![sector_read(sector.spec_location())] + sector_commands(
                                sector.spec_location(),
                                read_back(final(self).qspi.log()[k]),
                                bytes@,
                                address.0,
                            ),
                        )
                        &&& sent_all_of(
                            old(self).qspi.log(),
                            final(self).qspi.log(),
                            seq![sector_read(sector.spec_location())] + sector_commands(
                                sector.spec_location(),
                                read_back(final(self).qspi.log()[k]),
                                bytes@,
                                address.0,
                            ),
                        )
                    },
                Err(FlashError::TimeOut) => {
                    &&& old(self).timeout is Some
                    &&& reports_busy(final(self).qspi.log().last())
                    &&& final(self).qspi.log().len() > old(self).qspi.log().len()
                },
                Err(FlashError::QspiError) => {
                    &&& final(self).qspi.log().len() > old(self).qspi.log().len()
                    &&& final(self).qspi.log().last().outcome is Failed
                },
                Err(_) => false,
            },
    {
        let ghost log = self.qspi.log();
        let ghost replies = self.qspi.replies();
        let ghost commands = sent(log);
        let location = sector.location();
        proof {
            use_type_invariant(sector);
        }
        let mut sector_data: Vec<u8> = vec![0u8; SECTOR_SIZE];
        assert(sector_data@ =~= Seq::new(SECTOR_SIZE as nat, |i: int| 0u8));
        let ghost blank = sector_data@;
        let read = self.block_read(location, sector_data.as_mut_slice());
        if let Err(error) = read {
            proof {
                let one = seq![sector_read(sector.spec_location())];
                let all = one + sector_commands(
                    sector.spec_location(),
                    blank,
                    bytes@,
                    address.0,
                );
                let n = choose|n: int|
                    0 <= n <= one.len() && sent(self.qspi.log()) == commands
                        + #[trigger] one.take(n);
                assert(one.take(n) =~= all.take(n));
                assert(sent_some_of(log, self.qspi.log(), all));
            }
            return Err(error);
        }
        let ghost middle = self.qspi.log();
        let ghost middle_replies = self.qspi.replies();
        let ghost k = middle.len() - 1;
        let ghost held = sector_data@;
        let programmed = self.program_sector(sector, sector_data, bytes, address);
        proof {
            let now = self.qspi.log();
            assert(now.take(log.len() as int) =~= middle.take(log.len() as int));
            lemma_done_so_far(log.len() as int, middle, now);
            assert(self.qspi.log().take(middle.len() as int) =~= middle);
            lemma_served_both(
                replies,
                log,
                middle,
                middle_replies,
                self.qspi.log(),
                self.qspi.replies(),
            );
            assert(now[k] == now.take(middle.len() as int)[k]);
            assert(read_back(now[k]) == held);
            assert(now.take(k) =~= middle.drop_last());
            assert(sent(middle.drop_last()) =~= commands) by {
                let command = sector_read(sector.spec_location());
                assert(!is_poll(command)) by {
                    assert(Command::Read.spec_opcode() != Command::ReadStatus.spec_opcode());
                }
                assert(sent(middle) == sent(middle.drop_last()).push(command));
                assert(sent(middle.drop_last()) == sent(middle).drop_last());
                assert(commands == commands.push(command).drop_last());
            }
            let rest = sector_commands(sector.spec_location(), held, bytes@, address.0);
            let all = seq![sector_read(sector.spec_location())] + rest;
            if programmed is Ok {
                assert(commands.push(sector_read(sector.spec_location())) + rest =~= commands
                    + all);
                lemma_with_polls_both(seq![sector_read(sector.spec_location())], rest);
                if self.timeout is None {
                    assert(trace(now) =~= trace(log) + with_polls(all));
                }
            }
            let n = choose|n: int|
                0 <= n <= rest.len() && sent(now) == sent(middle) + #[trigger] rest.take(n);
            assert(sent(middle) == commands.push(sector_read(sector.spec_location())));
            assert(commands.push(sector_read(sector.spec_location())) + rest.take(n) =~= commands
                + all.take(n + 1));
            assert(sent_some_of(log, now, all));
        }
        programmed
    }

}

impl<QSPI: Indirect, NOW: Now> ReadWrite for MicronN25q128a<QSPI, NOW> {
    type Error = FlashError;

    type Address = Address;

    open spec fn inv(&self) -> bool {
        self.qspi.inv()
    }

    open spec fn patience(&self) -> nat {
        self.qspi.patience()
    }

    /// What the chip holds, where the peripheral says what the chip
    /// behind it holds.
    open spec fn contents(&self) -> Option<(nat, Seq<u8>)> {
        match self.qspi.memory() {
            Some(held) => if held.len() == MEMORY_SIZE {
                Some((BASE_ADDRESS as nat, held))
            } else {
                None
            },
            None => None,
        }
    }

    open spec fn transfer_size() -> nat {
        SECTOR_SIZE as nat
    }

    fn label() -> (label: &'static str)
        ensures
            label == "Micron n25q128a (External)",
    {
        "Micron n25q128a (External)"
    }

    /// Reads as many bytes as `bytes` holds, from `address` on. With the
    /// chip busy nothing is sent but the read of the status register that
    /// found it so, and `bytes` stays as it is.
    #[verifier::rlimit(40)]
    fn read(&mut self, address: Address, bytes: &mut [u8]) -> (result: Result<
        (),
        nb::Error<FlashError>,
    >)
        ensures
            final(self).qspi.inv(),
            final(self).timeout == old(self).timeout,
            final(bytes)@.len() == old(bytes)@.len(),
            extends(old(self).qspi.log(), final(self).qspi.log()),
            (result == Err::<(), nb::Error<FlashError>>(
                nb::Error::Other(FlashError::AddressOutOfRange),
            )) == !Self::reachable(address, old(bytes)@.len()),
            sent_some_of(
                old(self).qspi.log(),
                final(self).qspi.log(),
                seq![on_the_bus(Command::Read, Some(address.0), DataView::Read(old(bytes)@))],
            ),
            result is Err && result->Err_0 is WouldBlock ==> trace(final(self).qspi.log()) == trace(
                old(self).qspi.log(),
            ),
            result is Ok ==> trace(final(self).qspi.log()) == trace(old(self).qspi.log())
                + with_polls(
                seq![on_the_bus(Command::Read, Some(address.0), DataView::Read(old(bytes)@))],
            ),
            result is Ok ==> reads(
                final(self).qspi.log(),
                old(self).qspi.log().len() as int,
                address.0 as int,
                final(bytes)@,
            ),
            served_from(
                old(self).qspi.replies(),
                old(self).qspi.log(),
                final(self).qspi.log(),
                final(self).qspi.replies(),
            ),
            done_before_last(final(self).qspi.log(), old(self).qspi.log().len() as int),
            match result {
                Ok(()) => {
                    &&& all_done(final(self).qspi.log(), old(self).qspi.log().len() as int)
                    &&& final(self).qspi.log().len() == old(self).qspi.log().len() + 2
                    &&& is_poll(final(self).qspi.log()[old(self).qspi.log().len() as int].sent)
                    &&& !reports_busy(final(self).qspi.log()[old(self).qspi.log().len() as int])
                    &&& final(self).qspi.log().last() == (Exchange {
                        sent: on_the_bus(
                            Command::Read,
                            Some(address.0),
                            DataView::Read(old(bytes)@),
                        ),
                        returned: DataView::Read(final(bytes)@),
                        outcome: Outcome::Done,
                    })
                },
                Err(nb::Error::WouldBlock) => {
                    &&& polled(old(self).qspi.log(), final(self).qspi.log())
                    &&& reports_busy(final(self).qspi.log().last())
                    &&& final(self).qspi.patience() < old(self).qspi.patience()
                    &&& final(bytes)@ == old(bytes)@
                },
                Err(nb::Error::Other(FlashError::AddressOutOfRange)) => {
                    &&& final(self).qspi.log() == old(self).qspi.log()
                    &&& final(bytes)@ == old(bytes)@
                },
                Err(nb::Error::Other(FlashError::QspiError)) => {
                    &&& final(self).qspi.log().len() > old(self).qspi.log().len()
                    &&& final(self).qspi.log().last().outcome is Failed
                    &&& final(bytes)@ == old(bytes)@
                },
                Err(nb::Error::Other(_)) => false,
            },
    {
        let ghost log = self.qspi.log();
        let ghost replies = self.qspi.replies();
        let ghost command = on_the_bus(Command::Read, Some(address.0), DataView::Read(bytes@));
        assert(log.take(log.len() as int) =~= log);
        if address.0 < BASE_ADDRESS || bytes.len() > MEMORY_SIZE || address.0 > BASE_ADDRESS
            + (MEMORY_SIZE - bytes.len()) as u32 {
            proof {
                lemma_sent_none_of(log, log, seq![command]);
            }
            return Err(nb::Error::Other(FlashError::AddressOutOfRange));
        }
        let polled = Self::status(&mut self.qspi);
        proof {
            lemma_extends_push(log, log, self.qspi.log());
            lemma_sent_none_of(log, self.qspi.log(), seq![command]);
        }
        match polled {
            Ok(status) => {
                if status.write_in_progress {
                    return Err(nb::Error::WouldBlock);
                }
            },
            Err(error) => {
                return Err(error);
            },
        }
        let ghost middle = self.qspi.log();
        let ghost middle_replies = self.qspi.replies();
        let (done, data) = Self::execute_command(
            &mut self.qspi,
            Command::Read,
            Some(address),
            Data::Read(slice_to_vec(bytes)),
        );
        proof {
            assert(self.qspi.log().drop_last() =~= middle);
            lemma_extends_push(log, middle, self.qspi.log());
            lemma_sent_push(middle, self.qspi.log().last());
            assert(self.qspi.log().take(middle.len() as int) =~= middle);
            lemma_served_both(
                replies,
                log,
                middle,
                middle_replies,
                self.qspi.log(),
                self.qspi.replies(),
            );
            lemma_trace_push(middle, self.qspi.log().last());
            lemma_with_polls_two(command, command);
            if !reports_busy(middle.last()) {
                assert(trace(self.qspi.log()) =~= trace(log) + with_polls(seq![command]));
            }
            assert(!is_poll(command)) by {
                assert(Command::Read.spec_opcode() != Command::ReadStatus.spec_opcode());
            }
            assert(seq![command].take(1) =~= seq![command]);
            assert(sent(self.qspi.log()) =~= sent(log) + seq![command].take(1));
        }
        if let Err(error) = done {
            return Err(error);
        }
        if let Data::Read(answer) = data {
            let mut i: usize = 0;
            while i < bytes.len()
                invariant
                    bytes@.len() == answer@.len(),
                    i <= bytes@.len(),
                    forall|j: int| 0 <= j < i ==> bytes@[j] == answer@[j],
                decreases bytes@.len() - i,
            {
                bytes[i] = answer[i];
                i += 1;
            }
            assert(bytes@ =~= answer@);
        }
        proof {
            let now = self.qspi.log();
            assert forall|states: Seq<Chip>| #[trigger] history(now, states) implies states.last().memory
                == states[log.len() as int].memory && bytes@ == states[log.len() as int].memory.subrange(
                address.0 as int,
                address.0 + bytes@.len(),
            ) by {
                lemma_read_reads(now, states, log.len() as int, address.0, old(bytes)@, bytes@);
            }
        }
        Ok(())
    }

    /// Writes `bytes` at `address`, sector by sector, by ascending address.
    /// Bytes that would lie past the end of the chip are left out. With the
    /// chip busy nothing is sent but the read of the status register that
    /// found it so. A write that fails on the way leaves the sectors before
    /// the failure written and those after it as they were.
    #[verifier::rlimit(40)]
    fn write(&mut self, address: Address, bytes: &[u8]) -> (result: Result<
        (),
        nb::Error<FlashError>,
    >)
        ensures
            final(self).qspi.inv(),
            final(self).timeout == old(self).timeout,
            began_with_poll(old(self).qspi.log(), final(self).qspi.log()),
            (result is Err && result->Err_0 is WouldBlock) == reports_busy(
                final(self).qspi.log()[old(self).qspi.log().len() as int],
            ),
            wrote_some_of(
                old(self).qspi.log(),
                final(self).qspi.log(),
                address.0 as nat,
                bytes@,
            ),
            result is Err && result->Err_0 is WouldBlock ==> trace(final(self).qspi.log()) == trace(
                old(self).qspi.log(),
            ),
            result is Ok && Self::reachable(address, bytes@.len()) ==> writes(
                final(self).qspi.log(),
                old(self).qspi.log().len() as int,
                address.0 as int,
                bytes@,
            ),
            served_from(
                old(self).qspi.replies(),
                old(self).qspi.log(),
                final(self).qspi.log(),
                final(self).qspi.replies(),
            ),
            done_before_last(final(self).qspi.log(), old(self).qspi.log().len() as int),
            result is Ok ==> all_done(final(self).qspi.log(), old(self).qspi.log().len() as int),
            match result {
                Ok(()) => exists|existing: Seq<Seq<u8>>, places: Seq<int>|
                    {
                        &&& #[trigger] brought_back(
                            final(self).qspi.log(),
                            old(self).qspi.log().len() as int,
                            memory::overlaps_of(
                                sectors_of_chip(),
                                address.0 as nat,
                                bytes@.len(),
                            ),
                            existing,
                            places,
                            bytes@,
                            memory::overlaps_of(
                                sectors_of_chip(),
                                address.0 as nat,
                                bytes@.len(),
                            ).len() as int,
                        )
                        &&& sent_all_of(
                            old(self).qspi.log(),
                            final(self).qspi.log(),
                            write_commands(
                                memory::overlaps_of(
                                    sectors_of_chip(),
                                    address.0 as nat,
                                    bytes@.len(),
                                ),
                                existing,
                                bytes@,
                            ),
                        )
                        &&& old(self).timeout is None ==> trace(final(self).qspi.log()) == trace(
                            old(self).qspi.log(),
                        ).push(query(Command::ReadStatus)) + with_polls(
                            write_commands(
                                memory::overlaps_of(
                                    sectors_of_chip(),
                                    address.0 as nat,
                                    bytes@.len(),
                                ),
                                existing,
                                bytes@,
                            ),
                        )
                    },
                Err(nb::Error::WouldBlock) => {
                    &&& polled(old(self).qspi.log(), final(self).qspi.log())
                    &&& final(self).qspi.patience() < old(self).qspi.patience()
                },
                Err(nb::Error::Other(FlashError::TimeOut)) => {
                    &&& old(self).timeout is Some
                    &&& reports_busy(final(self).qspi.log().last())
                    &&& final(self).qspi.log().len() > old(self).qspi.log().len()
                },
                Err(nb::Error::Other(FlashError::QspiError)) => {
                    &&& final(self).qspi.log().len() > old(self).qspi.log().len()
                    &&& final(self).qspi.log().last().outcome is Failed
                },
                Err(nb::Error::Other(_)) => false,
            },
    {
        let ghost log = self.qspi.log();
        let ghost replies = self.qspi.replies();
        let ghost commands = sent(log);
        assert(log.take(log.len() as int) =~= log);
        let polled = Self::status(&mut self.qspi);
        proof {
            lemma_extends_push(log, log, self.qspi.log());
            let all = memory::overlaps_of(sectors_of_chip(), address.0 as nat, bytes@.len());
            let nothing = Seq::new(all.len(), |k: int| Seq::<u8>::empty());
            lemma_sent_none_of(log, self.qspi.log(), write_commands(all, nothing, bytes@));
            assert(wrote_some_of(log, self.qspi.log(), address.0 as nat, bytes@));
        }
        match polled {
            Ok(status) => {
                if status.write_in_progress {
                    return Err(nb::Error::WouldBlock);
                }
            },
            Err(error) => {
                return Err(error);
            },
        }
        let ghost first = self.qspi.log()[log.len() as int];
        let sectors = MemoryMap::sectors();
        let pieces = memory::overlaps(sectors.as_slice(), bytes.len(), address);
        let ghost bounds = sectors_of_chip();
        let ghost mut existing: Seq<Seq<u8>> = Seq::empty();
        let ghost mut places: Seq<int> = Seq::empty();
        proof {
            assert(memory::spans::<Address, Sector>(sectors@) =~= bounds);
            memory::lemma_overlaps_fit(bounds, address.0 as nat, bytes@.len());
            assert(pieces@.take(0) =~= Seq::<memory::Overlap>::empty());
            assert(commands =~= commands + write_commands(pieces@.take(0), existing, bytes@));
            assert(trace(self.qspi.log()) =~= trace(log).push(query(Command::ReadStatus))
                + with_polls(write_commands(pieces@.take(0), existing, bytes@)));
        }
        let mut i: usize = 0;
        while i < pieces.len()
            invariant
                self.qspi.inv(),
                self.timeout == old(self).timeout,
                log == old(self).qspi.log(),
                replies == old(self).qspi.replies(),
                served_from(replies, log, self.qspi.log(), self.qspi.replies()),
                commands == sent(log),
                address.0 + bytes@.len() <= u32::MAX,
                i <= pieces@.len(),
                sectors@.len() == NUMBER_OF_SECTORS,
                bounds == sectors_of_chip(),
                bounds == memory::spans::<Address, Sector>(sectors@),
                pieces@ == memory::overlaps_of(bounds, address.0 as nat, bytes@.len()),
                forall|k: int|
                    0 <= k < pieces@.len() ==> memory::fits(
                        #[trigger] pieces@[k],
                        bounds,
                        address.0 as nat,
                    ) && pieces@[k].end <= bytes@.len(),
                extends(log, self.qspi.log()),
                self.qspi.log().len() > log.len(),
                self.qspi.log()[log.len() as int] == first,
                is_poll(first.sent),
                !reports_busy(first),
                existing.len() == i,
                brought_back(
                    self.qspi.log(),
                    log.len() as int,
                    pieces@,
                    existing,
                    places,
                    bytes@,
                    i as int,
                ),
                sent(self.qspi.log()) == commands + write_commands(
                    pieces@.take(i as int),
                    existing,
                    bytes@,
                ),
                all_done(self.qspi.log(), log.len() as int),
                self.timeout is None ==> trace(self.qspi.log()) == trace(log).push(
                    query(Command::ReadStatus),
                ) + with_polls(write_commands(pieces@.take(i as int), existing, bytes@)),
            decreases pieces@.len() - i,
        {
            let piece = pieces[i];
            let ghost middle = self.qspi.log();
            let ghost middle_replies = self.qspi.replies();
            let ghost so_far = write_commands(pieces@.take(i as int), existing, bytes@);
            assert(memory::fits(piece, bounds, address.0 as nat));
            let sector = &sectors[piece.block];
            let chunk = slice_subrange(bytes, piece.start, piece.end);
            let written = self.write_sector(sector, chunk, Address(piece.address));
            proof {
                let now = self.qspi.log();
                assert(now.take(log.len() as int) =~= middle.take(log.len() as int));
                assert(now[log.len() as int] == now.take(middle.len() as int)[log.len() as int]);
                lemma_done_so_far(log.len() as int, middle, now);
                assert(self.qspi.log().take(middle.len() as int) =~= middle);
                lemma_served_both(
                    replies,
                    log,
                    middle,
                    middle_replies,
                    self.qspi.log(),
                    self.qspi.replies(),
                );
                assert(sector.spec_location() == (BASE_ADDRESS + piece.block * SECTOR_SIZE) as nat);
                if written is Ok {
                    let k = choose|k: int|
                        {
                            &&& middle.len() <= k < now.len()
                            &&& (#[trigger] now[k]).sent == sector_read(sector.spec_location())
                            &&& now[k].outcome is Done
                            &&& read_back(now[k]).len() == SECTOR_SIZE
                            &&& sent(now.take(k)) == sent(middle)
                            &&& self.timeout is None ==> trace(now) == trace(middle) + with_polls(
                                seq![sector_read(sector.spec_location())] + sector_commands(
                                    sector.spec_location(),
                                    read_back(now[k]),
                                    chunk@,
                                    piece.address,
                                ),
                            )
                            &&& sent_all_of(
                                middle,
                                now,
                                seq![sector_read(sector.spec_location())] + sector_commands(
                                    sector.spec_location(),
                                    read_back(now[k]),
                                    chunk@,
                                    piece.address,
                                ),
                            )
                        };
                    let held = read_back(now[k]);
                    let step = seq![sector_read(sector.spec_location())] + sector_commands(
                        sector.spec_location(),
                        held,
                        chunk@,
                        piece.address,
                    );
                    assert(middle.take(log.len() as int) =~= log);
                    lemma_sector_brought_back(
                        log.len() as int,
                        middle,
                        now,
                        pieces@,
                        existing,
                        places,
                        bytes@,
                        i as int,
                        k,
                    );
                    lemma_sector_commands_added(pieces@, existing, bytes@, i as int, held);
                    lemma_with_polls_both(so_far, step);
                    assert(sent(now) =~= commands + (so_far + step));
                    if self.timeout is None {
                        assert(trace(now) =~= trace(log).push(query(Command::ReadStatus))
                            + with_polls(so_far + step));
                    }
                    places = places.push(k);
                    existing = existing.push(held);
                } else {
                    let held = choose|held: Seq<u8>|
                        held.len() == SECTOR_SIZE && #[trigger] sent_some_of(
                            middle,
                            now,
                            seq![sector_read(sector.spec_location())] + sector_commands(
                                sector.spec_location(),
                                held,
                                chunk@,
                                piece.address,
                            ),
                        );
                    lemma_sector_failed(
                        log,
                        middle,
                        now,
                        address.0 as nat,
                        bytes@,
                        existing,
                        i as int,
                        held,
                    );
                }
            }
            if let Err(error) = written {
                return Err(nb::Error::Other(error));
            }
            i += 1;
        }
        proof {
            assert(pieces@.take(i as int) =~= pieces@);
            assert(sent_all_of(log, self.qspi.log(), write_commands(pieces@, existing, bytes@)));
            lemma_sent_all_are_some(
                log,
                self.qspi.log(),
                write_commands(pieces@, existing, bytes@),
            );
            if Self::reachable(address, bytes@.len()) {
                let now = self.qspi.log();
                assert(now.take(log.len() as int) =~= log);
                assert forall|states: Seq<Chip>| #[trigger] history(now, states) implies states.last().memory
                    == crate::hal::flash::overlaid(
                    states[log.len() as int].memory,
                    address.0 as int,
                    bytes@,
                ) by {
                    lemma_write_writes(
                        now,
                        states,
                        log.len() as int,
                        address.0,
                        bytes@,
                        existing,
                        places,
                    );
                }
            }
            assert(wrote_some_of(log, self.qspi.log(), address.0 as nat, bytes@));
            assert(brought_back(
                self.qspi.log(),
                log.len() as int,
                pieces@,
                existing,
                places,
                bytes@,
                pieces@.len() as int,
            ));
        }
        Ok(())
    }

    fn range(&self) -> (range: (Address, Address))
        ensures
            range.0 == Address(BASE_ADDRESS),
            range.1.0 == BASE_ADDRESS + MEMORY_SIZE,
    {
        (MemoryMap::location(), MemoryMap::end())
    }

    /// Erases the whole chip and waits until the chip has done so. With the
    /// chip busy nothing is sent but the read of the status register that
    /// found it so.
    #[verifier::rlimit(40)]
    fn erase(&mut self) -> (result: Result<(), nb::Error<FlashError>>)
        ensures
            final(self).qspi.inv(),
            final(self).timeout == old(self).timeout,
            began_with_poll(old(self).qspi.log(), final(self).qspi.log()),
            sent_some_of(
                old(self).qspi.log(),
                final(self).qspi.log(),
                seq![
                    bare(Command::WriteEnable),
                    bare(Command::BulkErase),
                    bare(Command::WriteDisable),
                ],
            ),
            (result is Err && result->Err_0 is WouldBlock) == reports_busy(
                final(self).qspi.log()[old(self).qspi.log().len() as int],
            ),
            result is Err && result->Err_0 is WouldBlock ==> trace(final(self).qspi.log()) == trace(
                old(self).qspi.log(),
            ),
            result is Ok ==> trace(final(self).qspi.log()) == trace(old(self).qspi.log()) + seq![
                query(Command::ReadStatus),
                bare(Command::WriteEnable),
                bare(Command::BulkErase),
                bare(Command::WriteDisable),
                query(Command::ReadStatus),
            ],
            result is Ok ==> erases(final(self).qspi.log()),
            served_from(
                old(self).qspi.replies(),
                old(self).qspi.log(),
                final(self).qspi.log(),
                final(self).qspi.replies(),
            ),
            done_before_last(final(self).qspi.log(), old(self).qspi.log().len() as int),
            match result {
                Ok(()) => {
                    &&& operated(
                        old(self).qspi.log(),
                        final(self).qspi.log(),
                        seq![
                            bare(Command::WriteEnable),
                            bare(Command::BulkErase),
                            bare(Command::WriteDisable),
                        ],
                    )
                    &&& sent_all_of(
                        old(self).qspi.log(),
                        final(self).qspi.log(),
                        seq![
                            bare(Command::WriteEnable),
                            bare(Command::BulkErase),
                            bare(Command::WriteDisable),
                        ],
                    )
                    &&& final(self).qspi.log().len() >= old(self).qspi.log().len() + 5
                    &&& final(self).qspi.log()[old(self).qspi.log().len() as int + 1].sent == bare(
                        Command::WriteEnable,
                    )
                    &&& final(self).qspi.log()[old(self).qspi.log().len() as int + 2].sent == bare(
                        Command::BulkErase,
                    )
                    &&& final(self).qspi.log()[old(self).qspi.log().len() as int + 3].sent == bare(
                        Command::WriteDisable,
                    )
                    &&& final(self).qspi.log().last().outcome is Done
                    &&& !reports_busy(final(self).qspi.log().last())
                },
                Err(nb::Error::WouldBlock) => {
                    &&& polled(old(self).qspi.log(), final(self).qspi.log())
                    &&& final(self).qspi.patience() < old(self).qspi.patience()
                },
                Err(nb::Error::Other(FlashError::QspiError)) => {
                    &&& final(self).qspi.log().len() > old(self).qspi.log().len()
                    &&& final(self).qspi.log().last().outcome is Failed
                },
                Err(nb::Error::Other(_)) => false,
            },
    {
        let ghost expected = seq![
            bare(Command::WriteEnable),
            bare(Command::BulkErase),
            bare(Command::WriteDisable),
        ];
        let ghost log = self.qspi.log();
        let ghost replies = self.qspi.replies();
        let ghost commands = sent(log);
        assert(log.take(log.len() as int) =~= log);
        let polled = Self::status(&mut self.qspi);
        proof {
            lemma_extends_push(log, log, self.qspi.log());
            assert(sent(self.qspi.log()) =~= commands + expected.take(0));
        }
        match polled {
            Ok(status) => {
                if status.write_in_progress {
                    return Err(nb::Error::WouldBlock);
                }
            },
            Err(error) => {
                return Err(error);
            },
        }
        let ghost first = self.qspi.log();
        let ghost first_replies = self.qspi.replies();
        let (enabled, _) = Self::execute_command(
            &mut self.qspi,
            Command::WriteEnable,
            None,
            Data::WriteNone,
        );
        proof {
            lemma_sent_push(first, self.qspi.log().last());
            assert(self.qspi.log().take(first.len() as int) =~= first);
            lemma_served_both(
                replies,
                log,
                first,
                first_replies,
                self.qspi.log(),
                self.qspi.replies(),
            );
            lemma_trace_push(first, self.qspi.log().last());
            assert(self.qspi.log().drop_last() =~= first);
            lemma_extends_push(log, first, self.qspi.log());
            assert(sent(self.qspi.log()) =~= commands + expected.take(1));
        }
        if let Err(error) = enabled {
            return Err(error);
        }
        let ghost second = self.qspi.log();
        let ghost second_replies = self.qspi.replies();
        let (erased, _) = Self::execute_command(
            &mut self.qspi,
            Command::BulkErase,
            None,
            Data::WriteNone,
        );
        proof {
            lemma_sent_push(second, self.qspi.log().last());
            assert(self.qspi.log().take(second.len() as int) =~= second);
            lemma_served_both(
                replies,
                log,
                second,
                second_replies,
                self.qspi.log(),
                self.qspi.replies(),
            );
            lemma_trace_push(second, self.qspi.log().last());
            assert(self.qspi.log().drop_last() =~= second);
            lemma_extends_push(log, second, self.qspi.log());
            assert(sent(self.qspi.log()) =~= commands + expected.take(2));
        }
        if let Err(error) = erased {
            return Err(error);
        }
        let ghost third = self.qspi.log();
        let ghost third_replies = self.qspi.replies();
        let (disabled, _) = Self::execute_command(
            &mut self.qspi,
            Command::WriteDisable,
            None,
            Data::WriteNone,
        );
        proof {
            lemma_sent_push(third, self.qspi.log().last());
            assert(self.qspi.log().take(third.len() as int) =~= third);
            lemma_served_both(
                replies,
                log,
                third,
                third_replies,
                self.qspi.log(),
                self.qspi.replies(),
            );
            lemma_trace_push(third, self.qspi.log().last());
            assert(self.qspi.log().drop_last() =~= third);
            lemma_extends_push(log, third, self.qspi.log());
            assert(sent(self.qspi.log()) =~= commands + expected);
            assert(expected.take(3) =~= expected);
        }
        if let Err(error) = disabled {
            return Err(error);
        }
        let ghost issued = self.qspi.log();
        let ghost issued_replies = self.qspi.replies();
        assert(issued.take(issued.len() as int) =~= issued);
        assert(trace(issued) =~= trace(log) + seq![
            query(Command::ReadStatus),
            bare(Command::WriteEnable),
            bare(Command::BulkErase),
            bare(Command::WriteDisable),
        ]);
        loop
            invariant
                self.qspi.inv(),
                self.timeout == old(self).timeout,
                log == old(self).qspi.log(),
                replies == old(self).qspi.replies(),
                served_from(replies, log, self.qspi.log(), self.qspi.replies()),
                issued.len() == log.len() + 4,
                extends(issued, self.qspi.log()),
                extends(log, self.qspi.log()),
                sent(self.qspi.log()) == commands + expected,
                commands == sent(log),
                expected == seq![
                    bare(Command::WriteEnable),
                    bare(Command::BulkErase),
                    bare(Command::WriteDisable),
                ],
                expected.take(3) == expected,
                is_poll(issued[log.len() as int].sent),
                !reports_busy(issued[log.len() as int]),
                issued[log.len() as int + 1].sent == bare(Command::WriteEnable),
                issued[log.len() as int + 2].sent == bare(Command::BulkErase),
                issued[log.len() as int + 3].sent == bare(Command::WriteDisable),
                all_done(self.qspi.log(), log.len() as int),
                only_polls(self.qspi.log(), issued.len() as int),
                trace(self.qspi.log()) == trace(log) + seq![
                    query(Command::ReadStatus),
                    bare(Command::WriteEnable),
                    bare(Command::BulkErase),
                    bare(Command::WriteDisable),
                ],
            decreases self.qspi.patience(),
        {
            let ghost middle = self.qspi.log();
            let ghost middle_replies = self.qspi.replies();
            let polled = Self::status(&mut self.qspi);
            proof {
                lemma_extends_push(log, middle, self.qspi.log());
                lemma_extends_push(issued, middle, self.qspi.log());
                lemma_done_so_far(log.len() as int, middle, self.qspi.log());
                assert(self.qspi.log().take(middle.len() as int) =~= middle);
                lemma_served_both(
                    replies,
                    log,
                    middle,
                    middle_replies,
                    self.qspi.log(),
                    self.qspi.replies(),
                );
                lemma_done_so_far(issued.len() as int, middle, self.qspi.log());
                let now = self.qspi.log();
                if !reports_busy(now.last()) {
                    assert(now.take(log.len() as int) =~= log);
                    assert forall|states: Seq<Chip>| #[trigger] history(now, states) implies crate::drivers::micron::n25q128a_chip::blank(
                        states.last().memory,
                    ) by {
                        lemma_erase_erases(now, states, log.len() as int);
                    }
                    assert(trace(now) =~= trace(log) + seq![
                        query(Command::ReadStatus),
                        bare(Command::WriteEnable),
                        bare(Command::BulkErase),
                        bare(Command::WriteDisable),
                        query(Command::ReadStatus),
                    ]);
                }
                assert(now[log.len() as int] == now.take(issued.len() as int)[log.len() as int]);
                assert(now[log.len() as int + 1] == now.take(issued.len() as int)[log.len() as int + 1]);
                assert(now[log.len() as int + 2] == now.take(issued.len() as int)[log.len() as int + 2]);
                assert(now[log.len() as int + 3] == now.take(issued.len() as int)[log.len() as int + 3]);
            }
            match polled {
                Ok(status) => {
                    if !status.write_in_progress {
                        return Ok(());
                    }
                },
                Err(error) => {
                    return Err(error);
                },
            }
        }
    }

    /// Passes the blocks on in transfers of a sector each, and what is
    /// left in one more transfer, which is written even where it is empty.
    /// The first transfer that fails ends the write: the transfers before it
    /// are written, of the one that failed the first few commands were sent,
    /// and nothing of those after it.
    #[verifier::rlimit(40)]
    fn write_from_blocks<const N: usize>(&mut self, address: Address, blocks: &[[u8; N]]) -> (result:
        Result<(), FlashError>)
        ensures
            final(self).timeout == old(self).timeout,
            extends(old(self).qspi.log(), final(self).qspi.log()),
            result is Ok && Self::reachable(address, flattened(blocks@).len()) ==> writes(
                final(self).qspi.log(),
                old(self).qspi.log().len() as int,
                address.0 as int,
                flattened(blocks@),
            ),
            served_from(
                old(self).qspi.replies(),
                old(self).qspi.log(),
                final(self).qspi.log(),
                final(self).qspi.replies(),
            ),
            done_before_last(final(self).qspi.log(), old(self).qspi.log().len() as int),
            result is Ok ==> all_done(final(self).qspi.log(), old(self).qspi.log().len() as int),
            match result {
                Ok(()) => exists|
                    cuts: Seq<int>,
                    existing: Seq<Seq<Seq<u8>>>,
                    places: Seq<Seq<int>>,
                |
                    {
                        &&& #[trigger] transfers_written(
                            final(self).qspi.log(),
                            cuts,
                            existing,
                            places,
                            flattened(blocks@),
                            address.0 as nat,
                            flattened(blocks@).len() as int / SECTOR_SIZE as int + 1,
                        )
                        &&& cuts[0] == old(self).qspi.log().len()
                        &&& cuts.last() == final(self).qspi.log().len()
                        &&& sent_all_of(
                            old(self).qspi.log(),
                            final(self).qspi.log(),
                            blocks_commands(
                                flattened(blocks@),
                                address.0 as nat,
                                existing,
                                flattened(blocks@).len() as int / SECTOR_SIZE as int + 1,
                            ),
                        )
                        &&& old(self).timeout is None ==> trace(final(self).qspi.log()) == trace(
                            old(self).qspi.log(),
                        ) + blocks_trace(
                            flattened(blocks@),
                            address.0 as nat,
                            existing,
                            flattened(blocks@).len() as int / SECTOR_SIZE as int + 1,
                        )
                    },
                Err(FlashError::TimeOut) => {
                    &&& old(self).timeout is Some
                    &&& reports_busy(final(self).qspi.log().last())
                    &&& final(self).qspi.log().len() > old(self).qspi.log().len()
                },
                Err(FlashError::QspiError) => {
                    &&& final(self).qspi.log().len() > old(self).qspi.log().len()
                    &&& final(self).qspi.log().last().outcome is Failed
                },
                Err(_) => false,
            },
            result is Err ==> exists|
                cuts: Seq<int>,
                existing: Seq<Seq<Seq<u8>>>,
                places: Seq<Seq<int>>,
            |
                {
                    &&& #[trigger] transfers_written(
                        final(self).qspi.log(),
                        cuts,
                        existing,
                        places,
                        flattened(blocks@),
                        address.0 as nat,
                        cuts.len() - 1,
                    )
                    &&& cuts.len() - 1 <= flattened(blocks@).len() as int / SECTOR_SIZE as int
                    &&& cuts[0] == old(self).qspi.log().len()
                    &&& wrote_some_of(
                        final(self).qspi.log().take(cuts.last()),
                        final(self).qspi.log(),
                        (address.0 + (cuts.len() - 1) * SECTOR_SIZE) as nat,
                        transfer(flattened(blocks@), cuts.len() - 1),
                    )
                },
    {
        let ghost log = self.qspi.log();
        let ghost replies = self.qspi.replies();
        let ghost commands = sent(log);
        let ghost bytes = flattened(blocks@);
        let ghost mut existing: Seq<Seq<Seq<u8>>> = Seq::empty();
        let ghost mut places: Seq<Seq<int>> = Seq::empty();
        let ghost mut cuts: Seq<int> = Seq::empty().push(log.len() as int);
        let chunks = transfers(blocks, SECTOR_SIZE);
        let mut offset: usize = 0;
        let mut c: usize = 0;
        proof {
            assert(log.take(log.len() as int) =~= log);
            assert(commands =~= commands + blocks_commands(bytes, address.0 as nat, existing, 0));
            assert(trace(log) =~= trace(log) + blocks_trace(bytes, address.0 as nat, existing, 0));
        }
        while c < chunks.len()
            invariant
                self.qspi.inv(),
                self.timeout == old(self).timeout,
                log == old(self).qspi.log(),
                replies == old(self).qspi.replies(),
                served_from(replies, log, self.qspi.log(), self.qspi.replies()),
                commands == sent(log),
                extends(log, self.qspi.log()),
                c <= chunks@.len(),
                bytes == flattened(blocks@),
                bytes.len() == blocks@.len() * N,
                address.0 + bytes.len() <= u32::MAX,
                cut_into(chunks@, bytes, SECTOR_SIZE as nat),
                c < chunks@.len() ==> offset == c * SECTOR_SIZE,
                existing.len() == c,
                sent(self.qspi.log()) == commands + blocks_commands(
                    bytes,
                    address.0 as nat,
                    existing,
                    c as int,
                ),
                transfers_written(
                    self.qspi.log(),
                    cuts,
                    existing,
                    places,
                    bytes,
                    address.0 as nat,
                    c as int,
                ),
                cuts[0] == log.len(),
                cuts[c as int] == self.qspi.log().len(),
                all_done(self.qspi.log(), log.len() as int),
                self.timeout is None ==> trace(self.qspi.log()) == trace(log) + blocks_trace(
                    bytes,
                    address.0 as nat,
                    existing,
                    c as int,
                ),
            decreases chunks@.len() - c,
        {
            let chunk = chunks[c].as_slice();
            proof {
                if c < chunks@.len() - 1 {
                    assert(chunk@ == bytes.subrange(
                        c * SECTOR_SIZE,
                        c * SECTOR_SIZE + SECTOR_SIZE as nat,
                    ));
                }
                assert(chunk@ == transfer(bytes, c as int));
            }
            let ghost middle = self.qspi.log();
            let ghost middle_replies = self.qspi.replies();
            let target = Address(address.0 + offset as u32);
            let written = self.block_write(target, chunk);
            proof {
                let now = self.qspi.log();
                assert(now.take(log.len() as int) =~= now.take(middle.len() as int).take(
                    log.len() as int,
                ));
                lemma_done_so_far(log.len() as int, middle, now);
                assert(self.qspi.log().take(middle.len() as int) =~= middle);
                lemma_served_both(
                    replies,
                    log,
                    middle,
                    middle_replies,
                    self.qspi.log(),
                    self.qspi.replies(),
                );
                if written is Ok {
                    let pieces = memory::overlaps_of(
                        sectors_of_chip(),
                        target.0 as nat,
                        chunk@.len(),
                    );
                    let (held, spots) = choose|held: Seq<Seq<u8>>, spots: Seq<int>|
                        {
                            &&& #[trigger] brought_back(
                                now,
                                middle.len() as int,
                                pieces,
                                held,
                                spots,
                                chunk@,
                                pieces.len() as int,
                            )
                            &&& sent_all_of(middle, now, write_commands(pieces, held, chunk@))
                            &&& self.timeout is None ==> trace(now) == trace(middle).push(
                                query(Command::ReadStatus),
                            ) + with_polls(write_commands(pieces, held, chunk@))
                        };
                    lemma_blocks_trace_ignores_later(
                        bytes,
                        address.0 as nat,
                        existing,
                        held,
                        c as int,
                    );
                    if self.timeout is None {
                        assert(trace(now) =~= trace(log) + blocks_trace(
                            bytes,
                            address.0 as nat,
                            existing.push(held),
                            c + 1,
                        ));
                    }
                    lemma_transfer_added(
                        middle,
                        now,
                        cuts,
                        existing,
                        places,
                        bytes,
                        address.0 as nat,
                        c as int,
                        held,
                        spots,
                    );
                    lemma_blocks_commands_ignore_later(
                        bytes,
                        address.0 as nat,
                        existing,
                        held,
                        c as int,
                    );
                    assert(sent(now) =~= commands + blocks_commands(
                        bytes,
                        address.0 as nat,
                        existing.push(held),
                        c + 1,
                    ));
                    cuts = cuts.push(now.len() as int);
                    places = places.push(spots);
                    existing = existing.push(held);
                } else {
                    lemma_transfers_stay(
                        middle,
                        now,
                        cuts,
                        existing,
                        places,
                        bytes,
                        address.0 as nat,
                        c as int,
                    );
                    assert(now.take(middle.len() as int) =~= middle);
                }
            }
            if let Err(error) = written {
                return Err(error);
            }
            offset += chunk.len();
            c += 1;
        }
        proof {
            assert(chunks@.len() == bytes.len() as int / SECTOR_SIZE as int + 1);
            assert(sent_all_of(
                log,
                self.qspi.log(),
                blocks_commands(bytes, address.0 as nat, existing, c as int),
            ));
            assert(transfers_written(
                self.qspi.log(),
                cuts,
                existing,
                places,
                bytes,
                address.0 as nat,
                c as int,
            ));
            if Self::reachable(address, bytes.len()) {
                let now = self.qspi.log();
                assert forall|states: Seq<Chip>| #[trigger] history(now, states) implies states.last().memory
                    == crate::hal::flash::overlaid(
                    states[log.len() as int].memory,
                    address.0 as int,
                    bytes,
                ) by {
                    lemma_transfers_write(now, states, cuts, existing, places, bytes, address.0);
                    assert(states.last() == states[now.len() as int]);
                }
            }
        }
        Ok(())
    }
}

} // verus!
