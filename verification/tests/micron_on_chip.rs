use blue_hal::drivers::micron::n25q128a_flash::Address;
use blue_hal::drivers::micron::n25q128a_flash::FlashError;
use blue_hal::drivers::micron::n25q128a_flash::MicronN25q128a;
use blue_hal::drivers::micron::n25q128a_flash::Page;
use blue_hal::drivers::micron::n25q128a_flash::Sector;
use blue_hal::drivers::micron::n25q128a_flash::MEMORY_SIZE;
use blue_hal::drivers::micron::n25q128a_flash::PAGE_SIZE;
use blue_hal::drivers::micron::n25q128a_flash::SECTOR_SIZE;
use blue_hal::hal::doubles::chip::FakeChip;
use blue_hal::hal::doubles::time::MockSysTick;
use blue_hal::hal::flash::ReadWrite;
use blue_hal::hal::qspi::Data;
use blue_hal::hal::qspi::Indirect;
use blue_hal::hal::qspi::QSPICommand;

type Flash = MicronN25q128a<FakeChip, MockSysTick>;

fn flash(latency: usize) -> Flash {
    let mut flash = MicronN25q128a::new(FakeChip::new(latency)).unwrap();
    flash.qspi.instructions.clear();
    flash
}

fn block<T>(mut attempt: impl FnMut() -> Result<T, nb::Error<FlashError>>) -> T {
    loop {
        match attempt() {
            Ok(value) => return value,
            Err(nb::Error::WouldBlock) => {}
            Err(nb::Error::Other(error)) => panic!("{:?}", error),
        }
    }
}

fn read(flash: &mut Flash, address: u32, len: usize) -> Vec<u8> {
    let mut bytes = vec![0u8; len];
    block(|| flash.read(Address(address), &mut bytes));
    bytes
}

#[test]
fn ten_thousand_bytes_come_back_through_the_byte_iterator() {
    assert_eq!(PAGE_SIZE, 256);
    assert_eq!(SECTOR_SIZE, 65536);
    let expected: Vec<u8> = (0..10000u32).map(|i| i as u8).collect();
    let mut flash = flash(0);
    flash.write(Address(0), &expected).unwrap();
    let bytes = flash.bytes(Address(0)).take(&mut flash, 10000);
    assert_eq!(expected, bytes);
}

#[test]
fn write_then_read_gives_the_bytes_back() {
    for latency in [0usize, 2] {
        let mut flash = flash(latency);
        let written: Vec<u8> = (0..70_000u32).map(|i| (i * 31 % 251) as u8).collect();
        block(|| flash.write(Address(0x2_FF00), &written));
        assert_eq!(read(&mut flash, 0x2_FF00, 70_000), written);
        assert_eq!(read(&mut flash, 0x2_FEF0, 16), vec![0xFF; 16]);
        assert_eq!(read(&mut flash, 0x2_FF00 + 70_000, 16), vec![0xFF; 16]);
        // Written over with other bytes, the sectors are erased and keep the
        // rest of what they held.
        block(|| flash.write(Address(0x3_0000), &[0xFF, 0x00, 0xAA]));
        let mut expected = written.clone();
        expected[0x100..0x103].copy_from_slice(&[0xFF, 0x00, 0xAA]);
        assert_eq!(read(&mut flash, 0x2_FF00, 70_000), expected);
    }
}

#[test]
fn write_reaches_the_last_byte_of_the_chip() {
    let mut flash = flash(1);
    let end = MEMORY_SIZE as u32;
    block(|| flash.write(Address(end - 3), &[1, 2, 3]));
    assert_eq!(read(&mut flash, end - 4, 4), vec![0xFF, 1, 2, 3]);
    // What would lie past the end is left out.
    block(|| flash.write(Address(end - 2), &[7, 8, 9, 10]));
    assert_eq!(read(&mut flash, end - 4, 4), vec![0xFF, 1, 7, 8]);
}

#[test]
fn erase_leaves_erased_bytes() {
    let mut flash = flash(3);
    block(|| flash.write(Address(100), &[0u8; 1000]));
    assert_eq!(read(&mut flash, 100, 1000), vec![0u8; 1000]);
    block(|| flash.erase());
    assert_eq!(read(&mut flash, 0, 2000), vec![0xFF; 2000]);
    block(|| flash.write(Address(0x1_0000), &[0u8; 16]));
    block(|| flash.write(Address(0x2_0000), &[0u8; 16]));
    let sector = Sector::at(Address(0x1_0004)).unwrap();
    block(|| flash.erase_sector(&sector));
    assert_eq!(read(&mut flash, 0x1_0000, 16), vec![0xFF; 16]);
    assert_eq!(read(&mut flash, 0x2_0000, 16), vec![0u8; 16]);
}

#[test]
fn write_of_a_bit_subset_sends_no_sector_erase() {
    let mut flash = flash(0);
    // Over erased flash anything is a bit subset.
    flash.write(Address(0x10), &[0xF0, 0x0F, 0xFF]).unwrap();
    assert!(!flash.qspi.instructions.contains(&0xD8));
    // Clearing more bits is one too.
    flash.write(Address(0x10), &[0x30, 0x0C, 0x00]).unwrap();
    assert!(!flash.qspi.instructions.contains(&0xD8));
    assert_eq!(read(&mut flash, 0x10, 3), vec![0x30, 0x0C, 0x00]);
    // Setting a bit is not.
    flash.write(Address(0x10), &[0x31, 0x0C, 0x00]).unwrap();
    assert_eq!(flash.qspi.instructions.iter().filter(|&&code| code == 0xD8).count(), 1);
    assert_eq!(read(&mut flash, 0x10, 3), vec![0x31, 0x0C, 0x00]);
}

#[test]
fn busy_chip_makes_operations_yield() {
    let mut flash = flash(2);
    let page = Page::at(Address(0)).unwrap();
    flash.write_page(&page, &[1, 2, 3], Address(0)).unwrap();
    flash.qspi.busy_polls = 2;
    flash.qspi.instructions.clear();
    assert_eq!(flash.write(Address(0), &[0u8; 4]), Err(nb::Error::WouldBlock));
    assert_eq!(flash.erase(), Err(nb::Error::WouldBlock));
    assert_eq!(flash.qspi.instructions, vec![0x05, 0x05]);
    assert_eq!(flash.erase(), Ok(()));
    assert_eq!(read(&mut flash, 0, 4), vec![0xFF; 4]);
}

#[test]
fn fake_chip_programs_only_when_write_is_enabled() {
    let mut chip = FakeChip::new(0);
    let mut program =
        QSPICommand::default().with_instruction(0x02).with_address(8).with_write_data(vec![0x0F]);
    chip.execute_command(&mut program).unwrap();
    assert_eq!(chip.memory[8], 0xFF);
    let mut enable = QSPICommand::default().with_instruction(0x06);
    chip.execute_command(&mut enable).unwrap();
    assert!(chip.write_enabled);
    chip.execute_command(&mut program).unwrap();
    assert_eq!(chip.memory[8], 0x0F);
    assert!(!chip.write_enabled);
    // A program that crosses the end of a page is not carried out.
    chip.execute_command(&mut enable).unwrap();
    let mut crossing = QSPICommand::default()
        .with_instruction(0x02)
        .with_address(255)
        .with_write_data(vec![0, 0]);
    chip.execute_command(&mut crossing).unwrap();
    assert_eq!(chip.memory[255], 0xFF);
    assert_eq!(chip.memory[256], 0xFF);
    let mut status = QSPICommand::default().with_instruction(0x05).with_read_data(vec![0]);
    chip.execute_command(&mut status).unwrap();
    assert!(matches!(status.data_ref(), Data::Read(answer) if answer == &vec![2]));
    let mut disable = QSPICommand::default().with_instruction(0x04);
    chip.execute_command(&mut disable).unwrap();
    let mut id = QSPICommand::default().with_instruction(0x9E).with_read_data(vec![0]);
    chip.execute_command(&mut id).unwrap();
    assert!(matches!(id.data_ref(), Data::Read(answer) if answer == &vec![0x20]));
}

#[test]
fn blocks_come_back_one_after_the_other() {
    let mut flash = flash(1);
    let held: Vec<u8> = (0..300u32).map(|i| (i % 7) as u8).collect();
    block(|| flash.write(Address(0x1_FF80), &held));
    // 600 blocks of 128 bytes: one transfer of a sector, and one of the rest.
    let blocks: Vec<[u8; 128]> = (0..600u32).map(|b| [(b % 253) as u8; 128]).collect();
    flash.write_from_blocks(Address(0x2_0000), &blocks).unwrap();
    let expected: Vec<u8> = blocks.iter().flat_map(|block| block.iter().copied()).collect();
    assert_eq!(read(&mut flash, 0x2_0000, 600 * 128), expected);
    assert_eq!(read(&mut flash, 0x1_FF80, 128), held[..128].to_vec());
    assert_eq!(read(&mut flash, 0x2_0000 + 600 * 128, 16), vec![0xFF; 16]);
}
