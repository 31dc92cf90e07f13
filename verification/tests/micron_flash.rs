use blue_hal::drivers::micron::n25q128a_flash::Address;
use blue_hal::drivers::micron::n25q128a_flash::Command;
use blue_hal::drivers::micron::n25q128a_flash::FlashError;
use blue_hal::drivers::micron::n25q128a_flash::MemoryMap;
use blue_hal::drivers::micron::n25q128a_flash::MicronN25q128a;
use blue_hal::drivers::micron::n25q128a_flash::Page;
use blue_hal::drivers::micron::n25q128a_flash::Sector;
use blue_hal::drivers::micron::n25q128a_flash::Status;
use blue_hal::drivers::micron::n25q128a_flash::Subsector;
use blue_hal::drivers::micron::n25q128a_flash::MANUFACTURER_ID;
use blue_hal::drivers::micron::n25q128a_flash::MEMORY_SIZE;
use blue_hal::drivers::micron::n25q128a_flash::NUMBER_OF_PAGES;
use blue_hal::drivers::micron::n25q128a_flash::NUMBER_OF_SECTORS;
use blue_hal::drivers::micron::n25q128a_flash::NUMBER_OF_SUBSECTORS;
use blue_hal::drivers::micron::n25q128a_flash::PAGES_PER_SECTOR;
use blue_hal::drivers::micron::n25q128a_flash::PAGES_PER_SUBSECTOR;
use blue_hal::drivers::micron::n25q128a_flash::PAGE_SIZE;
use blue_hal::drivers::micron::n25q128a_flash::SECTOR_SIZE;
use blue_hal::drivers::micron::n25q128a_flash::SUBSECTORS_PER_SECTOR;
use blue_hal::drivers::micron::n25q128a_flash::SUBSECTOR_SIZE;
use blue_hal::hal::doubles::qspi::MockQspi;
use blue_hal::hal::doubles::time::MockSysTick;
use blue_hal::hal::flash::ReadWrite;
use blue_hal::hal::qspi::Indirect;
use blue_hal::hal::qspi::QSPICommand;
use blue_hal::hal::time::Milliseconds;
use blue_hal::hal::time::Now;
use blue_hal::utilities::memory::Region;

type FlashToTest = MicronN25q128a<MockQspi, MockSysTick>;

fn flash_to_test() -> FlashToTest {
    let mut qspi = MockQspi::default();
    qspi.to_read.push_back(vec![MANUFACTURER_ID]);
    let mut flash = MicronN25q128a::new(qspi).unwrap();
    let initial_read = flash.qspi.command_records[0].clone();
    assert_eq!(initial_read.instruction, Some(Command::ReadId.opcode()));
    flash.qspi.clear();
    flash
}

fn instructions(flash: &FlashToTest) -> Vec<u8> {
    flash.qspi.command_records.iter().map(|record| record.instruction.unwrap()).collect()
}

#[test]
fn various_memory_map_iterations() {
    assert_eq!(MemoryMap::sectors().len(), NUMBER_OF_SECTORS);
    assert_eq!(MemoryMap::subsectors().len(), NUMBER_OF_SUBSECTORS);
    assert_eq!(MemoryMap::pages().len(), NUMBER_OF_PAGES);

    let expected_address = Address((3 * SECTOR_SIZE + 3 * SUBSECTOR_SIZE) as u32);
    let expected_index = 3 * SUBSECTORS_PER_SECTOR + 3;
    let sectors = MemoryMap::sectors();
    let subsectors = sectors[3].subsectors();
    let subsector = &subsectors[3];
    assert_eq!(expected_address, subsector.location());
    assert_eq!(subsector.index(), expected_index);

    let expected_address = Address((1 * SECTOR_SIZE + 2 * SUBSECTOR_SIZE + 3 * PAGE_SIZE) as u32);
    let expected_index = 1 * PAGES_PER_SECTOR + 2 * PAGES_PER_SUBSECTOR + 3;
    let subsectors = sectors[1].subsectors();
    let pages = subsectors[2].pages();
    let page = &pages[3];
    assert_eq!(expected_address, page.location());
    assert_eq!(page.index(), expected_index);
}

#[test]
fn initialisation_succeeds_for_correct_manufacturer_id() {
    const WRONG_MANUFACTURER_ID: u8 = 0x21;
    let mut qspi = MockQspi::default();
    qspi.to_read.push_back(vec![WRONG_MANUFACTURER_ID]);

    // Then
    assert!(FlashToTest::new(qspi).is_err());

    // Given
    let mut qspi = MockQspi::default();
    qspi.to_read.push_back(vec![MANUFACTURER_ID]);

    // Then
    assert!(FlashToTest::new(qspi).is_ok());
}

#[test]
fn bulk_erase_sets_write_enable_writes_command_and_sets_write_disable() {
    // Given
    let mut flash = flash_to_test();

    // When
    flash.erase().unwrap();
    let records = &flash.qspi.command_records;

    // Then
    assert_eq!(records[0].instruction, Some(Command::ReadStatus.opcode()));
    assert_eq!(records[1].instruction, Some(Command::WriteEnable.opcode()));
    assert_eq!(records[2].instruction, Some(Command::BulkErase.opcode()));
    assert_eq!(records[3].instruction, Some(Command::WriteDisable.opcode()));
}

#[test]
fn write_capable_commands_yield_if_device_busy() {
    // Given
    const BUSY_WRITING_STATUS: u8 = 1;
    let mut flash = flash_to_test();
    flash.qspi.to_read.push_back(vec![BUSY_WRITING_STATUS]);

    // Then
    assert_eq!(flash.erase(), Err(nb::Error::WouldBlock));

    flash.qspi.to_read.push_back(vec![BUSY_WRITING_STATUS]);
}

#[test]
fn page_program_command_sequence() {
    // Given
    let mut flash = flash_to_test();
    let address = Address(0x1000);
    let data = [0xAAu8; PAGE_SIZE];

    // When
    flash.write_page(&Page::at(address).unwrap(), &data, address).unwrap();
    let records = &flash.qspi.command_records;

    // Then
    assert_eq!(records[0].instruction, Some(Command::ReadStatus.opcode()));
    assert_eq!(records[1].instruction, Some(Command::WriteEnable.opcode()));
    assert_eq!(records[2].instruction, Some(Command::PageProgram.opcode()));
    assert_eq!(Some(address.0), records[2].address);
    assert!(records[2].contains(&data));
}

#[test]
fn subsector_read_command_sequence() {
    // Given
    let mut flash = flash_to_test();
    let address = MemoryMap::subsectors()[12].location();
    let mut data = [0x00u8; SUBSECTOR_SIZE];

    // When
    flash.read(address, &mut data).unwrap();
    let records = &flash.qspi.command_records;

    // Then
    assert_eq!(records[0].instruction, Some(Command::ReadStatus.opcode()));
    assert_eq!(records[1].instruction, Some(Command::Read.opcode()));
    assert_eq!(Some(address.0), records[1].address);
    assert_eq!(SUBSECTOR_SIZE, records[1].length_requested);
}

#[test]
fn opcodes_are_those_of_the_chip() {
    assert_eq!(Command::PageProgram.opcode(), 0x02);
    assert_eq!(Command::Read.opcode(), 0x03);
    assert_eq!(Command::WriteDisable.opcode(), 0x04);
    assert_eq!(Command::ReadStatus.opcode(), 0x05);
    assert_eq!(Command::WriteEnable.opcode(), 0x06);
    assert_eq!(Command::ReadId.opcode(), 0x9E);
    assert_eq!(Command::BulkErase.opcode(), 0xC7);
    assert_eq!(Command::SectorErase.opcode(), 0xD8);
    assert_eq!(MANUFACTURER_ID, 0x20);
}

#[test]
fn geometry_of_the_chip() {
    assert_eq!(PAGE_SIZE, 256);
    assert_eq!(SUBSECTOR_SIZE, PAGE_SIZE * PAGES_PER_SUBSECTOR);
    assert_eq!(SECTOR_SIZE, 64 * 1024);
    assert_eq!(SECTOR_SIZE, SUBSECTOR_SIZE * SUBSECTORS_PER_SECTOR);
    assert_eq!(MEMORY_SIZE, 16 * 1024 * 1024);
    assert_eq!(MEMORY_SIZE, NUMBER_OF_SECTORS * SECTOR_SIZE);
    assert_eq!(MemoryMap::pages().len(), MEMORY_SIZE / PAGE_SIZE);
    assert_eq!(MemoryMap::size(), MEMORY_SIZE);
    assert_eq!(MemoryMap::location(), Address(0));
    assert_eq!(MemoryMap::end(), Address(0x0100_0000));
    assert_eq!(Sector::size(), SECTOR_SIZE);
    assert_eq!(Subsector::size(), SUBSECTOR_SIZE);
    assert_eq!(Page::size(), PAGE_SIZE);
}

#[test]
fn every_sector_has_its_subsectors_and_pages() {
    for sector in MemoryMap::sectors() {
        let subsectors = sector.subsectors();
        assert_eq!(subsectors.len(), SUBSECTORS_PER_SECTOR);
        assert_eq!(sector.pages().len(), PAGES_PER_SECTOR);
        assert_eq!(subsectors[0].location(), sector.location());
        assert_eq!(subsectors[SUBSECTORS_PER_SECTOR - 1].end(), sector.end());
        for subsector in subsectors {
            let pages = subsector.pages();
            assert_eq!(pages.len(), PAGES_PER_SUBSECTOR);
            for page in pages {
                assert_eq!(page.index() / PAGES_PER_SECTOR, sector.index());
                assert!(sector.contains(page.location()));
                assert!(subsector.contains(page.location()));
            }
        }
    }
}

#[test]
fn blocks_follow_each_other_without_gap() {
    let sectors = MemoryMap::sectors();
    assert_eq!(sectors[0].location(), MemoryMap::location());
    for pair in sectors.windows(2) {
        assert_eq!(pair[0].end(), pair[1].location());
    }
    assert_eq!(sectors[NUMBER_OF_SECTORS - 1].end(), MemoryMap::end());
    let pages = MemoryMap::pages();
    for pair in pages.windows(2) {
        assert_eq!(pair[0].end(), pair[1].location());
    }
    assert_eq!(pages[NUMBER_OF_PAGES - 1].end(), MemoryMap::end());
}

#[test]
fn lookup_finds_the_one_block_that_holds_an_address() {
    for value in [0u32, 1, 255, 256, 4095, 4096, 65535, 65536, 0x12_3456, 0xFF_FFFF] {
        let address = Address(value);
        let sector = Sector::at(address).unwrap();
        let subsector = Subsector::at(address).unwrap();
        let page = Page::at(address).unwrap();
        assert!(sector.contains(address));
        assert!(subsector.contains(address));
        assert!(page.contains(address));
        assert_eq!(sector.index(), value as usize / SECTOR_SIZE);
        assert_eq!(subsector.index(), value as usize / SUBSECTOR_SIZE);
        assert_eq!(page.index(), value as usize / PAGE_SIZE);
        let holding = MemoryMap::sectors().iter().filter(|s| s.contains(address)).count();
        assert_eq!(holding, 1);
        let holding = MemoryMap::subsectors().iter().filter(|s| s.contains(address)).count();
        assert_eq!(holding, 1);
        let holding = MemoryMap::pages().iter().filter(|p| p.contains(address)).count();
        assert_eq!(holding, 1);
    }
}

#[test]
fn lookup_finds_nothing_outside_the_chip() {
    for value in [0x0100_0000u32, 0x0100_0001, u32::MAX] {
        let address = Address(value);
        assert!(Sector::at(address).is_none());
        assert!(Subsector::at(address).is_none());
        assert!(Page::at(address).is_none());
        assert!(!(MemoryMap {}).contains(address));
    }
    assert!((MemoryMap {}).contains(Address(0)));
    assert!((MemoryMap {}).contains(Address(0xFF_FFFF)));
}

#[test]
fn addresses_add_and_subtract() {
    assert_eq!(Address(10) + 5usize, Address(15));
    assert_eq!(Address(10) - 4usize, Address(6));
    assert_eq!(Address(10) - 11usize, Address(0));
    assert_eq!(Address(10) - Address(4), 6usize);
    assert_eq!(Address(4) - Address(10), 0usize);
    assert_eq!(Address(4) - Address(4), 0usize);
    let value: usize = Address(77).into();
    assert_eq!(value, 77);
    assert!(Address(3) < Address(4));
    assert_eq!(Address::default(), Address(0));
}

#[test]
fn status_byte_is_decoded_bit_by_bit() {
    assert_eq!(Status::from_byte(0), Status { write_in_progress: false, write_enable_latch: false });
    assert_eq!(Status::from_byte(1), Status { write_in_progress: true, write_enable_latch: false });
    assert_eq!(Status::from_byte(2), Status { write_in_progress: false, write_enable_latch: true });
    assert_eq!(Status::from_byte(0xFF), Status { write_in_progress: true, write_enable_latch: true });
    assert_eq!(Status::from_byte(0xFC), Status { write_in_progress: false, write_enable_latch: false });
}

#[test]
fn wrong_manufacturer_id_is_told_from_a_right_one() {
    let mut qspi = MockQspi::default();
    qspi.to_read.push_back(vec![0x21]);
    match FlashToTest::new(qspi) {
        Err(error) => assert_eq!(error, FlashError::WrongManufacturerId),
        Ok(_) => panic!("a chip of another make was taken"),
    }
    let qspi = MockQspi::default();
    match FlashToTest::with_timeout(qspi, Milliseconds(5)) {
        Err(error) => assert_eq!(error, FlashError::WrongManufacturerId),
        Ok(_) => panic!("a chip that did not answer was taken"),
    }
    let mut qspi = MockQspi::default();
    qspi.to_read.push_back(vec![MANUFACTURER_ID]);
    let flash = FlashToTest::with_timeout(qspi, Milliseconds(5)).unwrap();
    assert_eq!(flash.timeout, Some(Milliseconds(5)));
}

#[test]
fn bulk_erase_trace_is_exact() {
    let mut flash = flash_to_test();
    flash.erase().unwrap();
    assert_eq!(instructions(&flash), vec![0x05, 0x06, 0xC7, 0x04, 0x05]);
    for record in &flash.qspi.command_records {
        assert_eq!(record.address, None);
        assert_eq!(record.dummy_cycles, 0);
    }
}

#[test]
fn bulk_erase_waits_while_the_chip_is_busy() {
    let mut flash = flash_to_test();
    flash.qspi.to_read.push_back(vec![0]);
    flash.qspi.to_read.push_back(vec![1]);
    flash.qspi.to_read.push_back(vec![3]);
    flash.qspi.to_read.push_back(vec![2]);
    flash.erase().unwrap();
    assert_eq!(instructions(&flash), vec![0x05, 0x06, 0xC7, 0x04, 0x05, 0x05, 0x05]);
}

#[test]
fn busy_chip_is_sent_nothing_but_the_status_read() {
    let busy = || {
        let mut flash = flash_to_test();
        flash.qspi.to_read.push_back(vec![1]);
        flash
    };
    let mut flash = busy();
    assert_eq!(flash.erase(), Err(nb::Error::WouldBlock));
    assert_eq!(instructions(&flash), vec![0x05]);

    let mut flash = busy();
    assert_eq!(flash.write(Address(0), &[1, 2, 3, 4]), Err(nb::Error::WouldBlock));
    assert_eq!(instructions(&flash), vec![0x05]);

    let mut flash = busy();
    let mut buffer = [0u8; 4];
    assert_eq!(flash.read(Address(0), &mut buffer), Err(nb::Error::WouldBlock));
    assert_eq!(instructions(&flash), vec![0x05]);
    assert_eq!(buffer, [0u8; 4]);

    let mut flash = busy();
    let sector = Sector::at(Address(0)).unwrap();
    assert_eq!(flash.erase_sector(&sector), Err(nb::Error::WouldBlock));
    assert_eq!(instructions(&flash), vec![0x05]);

    let mut flash = busy();
    let page = Page::at(Address(0)).unwrap();
    assert_eq!(flash.write_page(&page, &[1, 2], Address(0)), Err(nb::Error::WouldBlock));
    assert_eq!(instructions(&flash), vec![0x05]);

    let mut flash = busy();
    assert_eq!(flash.wait_until_write_complete(), Err(nb::Error::WouldBlock));
    assert_eq!(instructions(&flash), vec![0x05]);
}

#[test]
fn sector_erase_command_sequence() {
    let mut flash = flash_to_test();
    let sector = Sector::at(Address(0x2_1234)).unwrap();
    flash.erase_sector(&sector).unwrap();
    assert_eq!(instructions(&flash), vec![0x05, 0x06, 0xD8, 0x05]);
    assert_eq!(flash.qspi.command_records[2].address, Some(0x2_0000));
}

#[test]
fn page_program_outside_the_page_is_misaligned() {
    let mut flash = flash_to_test();
    let page = Page::at(Address(0x1000)).unwrap();
    let data = [0u8; 16];
    assert_eq!(
        flash.write_page(&page, &data, Address(0x0FFF)),
        Err(nb::Error::Other(FlashError::MisalignedAccess))
    );
    assert_eq!(
        flash.write_page(&page, &data, Address(0x10F1)),
        Err(nb::Error::Other(FlashError::MisalignedAccess))
    );
    assert_eq!(
        flash.block_write_page(&page, &data, Address(0x1100)),
        Err(FlashError::MisalignedAccess)
    );
    assert!(flash.qspi.command_records.is_empty());
    flash.write_page(&page, &data, Address(0x10F0)).unwrap();
    assert_eq!(instructions(&flash), vec![0x05, 0x06, 0x02, 0x05]);
}

#[test]
fn read_outside_the_chip_is_out_of_range() {
    let mut flash = flash_to_test();
    let mut data = [0u8; 16];
    assert_eq!(
        flash.read(Address(0x00FF_FFF1), &mut data),
        Err(nb::Error::Other(FlashError::AddressOutOfRange))
    );
    assert_eq!(
        flash.read(Address(u32::MAX), &mut data),
        Err(nb::Error::Other(FlashError::AddressOutOfRange))
    );
    assert!(flash.qspi.command_records.is_empty());
    flash.read(Address(0x00FF_FFF0), &mut data).unwrap();
}

#[test]
fn read_hands_back_what_the_chip_answered() {
    let mut flash = flash_to_test();
    flash.qspi.to_read.push_back(vec![0]);
    flash.qspi.to_read.push_back(vec![9, 8, 7]);
    let mut data = [1u8; 5];
    flash.read(Address(64), &mut data).unwrap();
    assert_eq!(data, [9, 8, 7, 1, 1]);
    assert!(flash.qspi.command_records[1].contains(&[1u8; 5]));
}

#[test]
fn write_of_a_bit_subset_erases_nothing() {
    let mut flash = flash_to_test();
    // The mock answers the read of the sector with nothing, so the sector
    // seems to hold zeros, of which only zeros are a bit subset.
    flash.write(Address(0x1_00F0), &[0u8; 32]).unwrap();
    let sent = instructions(&flash);
    assert!(!sent.contains(&0xD8));
    assert_eq!(sent, vec![0x05, 0x05, 0x03, 0x05, 0x06, 0x02, 0x05, 0x05, 0x06, 0x02, 0x05]);
    let records = &flash.qspi.command_records;
    assert_eq!(records[2].address, Some(0x1_0000));
    assert_eq!(records[2].length_requested, SECTOR_SIZE);
    assert_eq!(records[5].address, Some(0x1_00F0));
    assert!(records[5].contains(&[0u8; 16]));
    assert_eq!(records[9].address, Some(0x1_0100));
    assert!(records[9].contains(&[0u8; 16]));
}

#[test]
fn write_of_set_bits_over_cleared_ones_erases_the_sector() {
    let mut flash = flash_to_test();
    flash.write(Address(0x3_0004), &[0xAB, 0xCD]).unwrap();
    let sent = instructions(&flash);
    // Status, then status and read of the sector, then the erase, then every
    // page of the sector.
    assert_eq!(&sent[..7], &[0x05, 0x05, 0x03, 0x05, 0x06, 0xD8, 0x05]);
    assert_eq!(sent.iter().filter(|&&code| code == 0xD8).count(), 1);
    assert_eq!(sent.iter().filter(|&&code| code == 0x02).count(), PAGES_PER_SECTOR);
    let records = &flash.qspi.command_records;
    assert_eq!(records[5].address, Some(0x3_0000));
    let programs: Vec<_> = records.iter().filter(|r| r.instruction == Some(0x02)).collect();
    let mut first_page = vec![0u8; PAGE_SIZE];
    first_page[4] = 0xAB;
    first_page[5] = 0xCD;
    assert_eq!(programs[0].address, Some(0x3_0000));
    assert!(programs[0].contains(&first_page));
    for (index, program) in programs.iter().enumerate() {
        assert_eq!(program.address, Some(0x3_0000 + (index * PAGE_SIZE) as u32));
    }
    assert!(programs[1].contains(&[0u8; PAGE_SIZE]));
}

#[test]
fn write_over_two_sectors_takes_them_in_ascending_order() {
    let mut flash = flash_to_test();
    flash.write(Address(0x1_FFFE), &[0, 0, 0, 0]).unwrap();
    let records = &flash.qspi.command_records;
    let reads: Vec<_> = records.iter().filter(|r| r.instruction == Some(0x03)).collect();
    assert_eq!(reads.len(), 2);
    assert_eq!(reads[0].address, Some(0x1_0000));
    assert_eq!(reads[1].address, Some(0x2_0000));
    let programs: Vec<_> = records.iter().filter(|r| r.instruction == Some(0x02)).collect();
    assert_eq!(programs.len(), 2);
    assert_eq!(programs[0].address, Some(0x1_FFFE));
    assert_eq!(programs[1].address, Some(0x2_0000));
    assert!(programs[0].contains(&[0, 0]));
}

#[test]
fn write_from_blocks_passes_sectors_on() {
    let mut flash = flash_to_test();
    let blocks = vec![[0u8; 128]; 513];
    flash.write_from_blocks(Address(0), &blocks).unwrap();
    let records = &flash.qspi.command_records;
    let reads: Vec<_> = records.iter().filter(|r| r.instruction == Some(0x03)).collect();
    assert_eq!(reads.len(), 2);
    assert_eq!(reads[0].address, Some(0));
    assert_eq!(reads[1].address, Some(SECTOR_SIZE as u32));
    let programs = records.iter().filter(|r| r.instruction == Some(0x02)).count();
    assert_eq!(programs, PAGES_PER_SECTOR + 1);
}

#[test]
fn range_and_label_of_the_chip() {
    let flash = flash_to_test();
    assert_eq!(flash.range(), (Address(0), Address(0x0100_0000)));
    assert_eq!(FlashToTest::label(), "Micron n25q128a (External)");
}

struct WallClock;

impl Now for WallClock {
    fn now() -> Milliseconds {
        let since = std::time::SystemTime::now().duration_since(std::time::UNIX_EPOCH).unwrap();
        Milliseconds((since.as_millis() % 1_000_000_000) as u32)
    }
}

#[test]
fn an_operation_that_outlasts_the_timeout_times_out() {
    let mut qspi = MockQspi::default();
    qspi.to_read.push_back(vec![MANUFACTURER_ID]);
    let mut flash: MicronN25q128a<MockQspi, WallClock> =
        MicronN25q128a::with_timeout(qspi, Milliseconds(2)).unwrap();
    flash.qspi.clear();
    flash.qspi.to_read.push_back(vec![0]);
    for _ in 0..3_000_000 {
        flash.qspi.to_read.push_back(vec![1]);
    }
    let sector = Sector::at(Address(0)).unwrap();
    assert_eq!(flash.erase_sector(&sector), Err(nb::Error::Other(FlashError::TimeOut)));
    assert_eq!(flash.qspi.command_records[2].instruction, Some(0xD8));
}

/// A bus that takes a number of commands and fails from then on.
struct FailingQspi {
    good_for: usize,
    busy_first: usize,
}

impl Indirect for FailingQspi {
    type Error = u8;

    fn inv(&self) -> bool {
        true
    }

    fn execute_command(&mut self, _command: &mut QSPICommand) -> Result<(), nb::Error<u8>> {
        if self.busy_first > 0 {
            self.busy_first -= 1;
            return Err(nb::Error::WouldBlock);
        }
        if self.good_for > 0 {
            self.good_for -= 1;
            Ok(())
        } else {
            Err(nb::Error::Other(7))
        }
    }
}

#[test]
fn errors_of_the_bus_come_back_as_qspi_errors() {
    let bus = FailingQspi { good_for: 0, busy_first: 3 };
    match MicronN25q128a::<FailingQspi, MockSysTick>::new(bus) {
        Err(error) => assert_eq!(error, FlashError::QspiError),
        Ok(_) => panic!("a chip behind a broken bus was taken"),
    }
    for good_for in 0..4 {
        let mut flash: MicronN25q128a<FailingQspi, MockSysTick> = MicronN25q128a {
            qspi: FailingQspi { good_for, busy_first: 1 },
            timeout: None,
            _marker: core::marker::PhantomData,
        };
        assert_eq!(flash.erase(), Err(nb::Error::Other(FlashError::QspiError)));
    }
    let mut flash: MicronN25q128a<FailingQspi, MockSysTick> = MicronN25q128a {
        qspi: FailingQspi { good_for: 5, busy_first: 2 },
        timeout: None,
        _marker: core::marker::PhantomData,
    };
    assert_eq!(flash.erase(), Ok(()));
    let mut buffer = [0u8; 4];
    assert_eq!(
        flash.read(Address(0), &mut buffer),
        Err(nb::Error::Other(FlashError::QspiError))
    );
    assert_eq!(
        flash.write(Address(0), &buffer),
        Err(nb::Error::Other(FlashError::QspiError))
    );
}

#[test]
fn write_of_a_bit_subset_has_this_exact_trace() {
    let mut flash = flash_to_test();
    flash.qspi.to_read.push_back(vec![0]);
    flash.qspi.to_read.push_back(vec![0]);
    flash.qspi.to_read.push_back(vec![0xFF; SECTOR_SIZE]);
    assert_eq!(flash.write(Address(0x100), &[0xAB, 0xCD]), Ok(()));
    assert_eq!(instructions(&flash), vec![0x05, 0x05, 0x03, 0x05, 0x06, 0x02, 0x05]);
    let records = &flash.qspi.command_records;
    assert_eq!(records[2].address, Some(0));
    assert_eq!(records[2].length_requested, SECTOR_SIZE);
    assert_eq!(records[5].address, Some(0x100));
    assert!(records[5].contains(&[0xAB, 0xCD]));
}

#[test]
fn page_program_with_a_timeout_polls_once_more() {
    let mut qspi = MockQspi::default();
    qspi.to_read.push_back(vec![MANUFACTURER_ID]);
    let mut flash: FlashToTest = MicronN25q128a::with_timeout(qspi, Milliseconds(10)).unwrap();
    flash.qspi.clear();
    let address = Address(0x1000);
    let page = Page::at(address).unwrap();
    assert_eq!(flash.write_page(&page, &[0xAA; 256], address), Ok(()));
    assert_eq!(instructions(&flash), vec![0x05, 0x06, 0x02, 0x05, 0x05]);
}
