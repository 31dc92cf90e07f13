use blue_hal::drivers::efm32gg11b::flash as efm32;
use blue_hal::drivers::max3263::flash as max3263;
use blue_hal::hal::doubles::flash::FakeController;
use blue_hal::hal::flash::transfers;
use blue_hal::hal::flash::CommandExecutor;
use blue_hal::hal::flash::ReadWrite;
use blue_hal::utilities::memory::Region;

type MaxFlash = max3263::Flash<FakeController<()>>;
type EfmFlash = efm32::Flash<FakeController<efm32::Fault>>;

fn max_flash(latency: usize) -> MaxFlash {
    max3263::Flash::new(FakeController::new(256, 8192, latency))
}

fn efm_flash(latency: usize) -> EfmFlash {
    efm32::Flash::new(FakeController::new(512, 4096, latency))
}

fn pattern(len: usize) -> Vec<u8> {
    (0..len).map(|i| (i * 7 % 253) as u8).collect()
}

#[test]
fn max3263_geometry() {
    assert_eq!(max3263::PAGE_SIZE, 8 * 1024);
    assert_eq!(max3263::PAGE_COUNT, 256);
    assert_eq!(max3263::MEMORY_SIZE, max3263::PAGE_SIZE * max3263::PAGE_COUNT);
    let pages = max3263::PageMap::pages();
    assert_eq!(pages.len(), 256);
    assert_eq!(pages.len() as u32, max3263::MEMORY_SIZE / max3263::PAGE_SIZE);
    assert_eq!(pages[3].address(), max3263::Address(3 * 8192));
    assert_eq!(pages[3].index(), 3);
    assert!(pages[3].contains(max3263::Address(3 * 8192)));
    assert!(pages[3].contains(max3263::Address(4 * 8192 - 1)));
    assert!(!pages[3].contains(max3263::Address(4 * 8192)));
    assert!(!pages[3].contains(max3263::Address(3 * 8192 - 1)));
    assert!(max3263::PageMap.contains(max3263::Address(0x1F_FFFF)));
    assert!(!max3263::PageMap.contains(max3263::Address(0x20_0000)));
    assert_eq!(max3263::Page::at(max3263::Address(8193)).unwrap().index(), 1);
    assert!(max3263::Page::at(max3263::Address(0x20_0000)).is_none());
    let flash = max_flash(0);
    assert_eq!(flash.range(), (max3263::Address(0), max3263::Address(0x20_0000)));
    assert_eq!(MaxFlash::label(), "MAX3263 flash (internal)");
}

#[test]
fn max3263_write_then_read_gives_the_bytes_back() {
    for latency in [0usize, 3] {
        let mut flash = max_flash(latency);
        let written = pattern(20_000);
        flash.write(max3263::Address(8188), &written).unwrap();
        let mut read = vec![0u8; 20_000];
        flash.read(max3263::Address(8188), &mut read).unwrap();
        assert_eq!(read, written);
        let mut around = vec![0u8; 4];
        flash.read(max3263::Address(8184), &mut around).unwrap();
        assert_eq!(around, vec![0xFF; 4]);
        flash.read(max3263::Address(8188 + 20_000), &mut around).unwrap();
        assert_eq!(around, vec![0xFF; 4]);
    }
}

#[test]
fn max3263_write_keeps_the_rest_of_the_page() {
    let mut flash = max_flash(1);
    flash.write(max3263::Address(0), &pattern(8192)).unwrap();
    flash.write(max3263::Address(100), &[1, 2, 3, 4]).unwrap();
    let mut expected = pattern(8192);
    expected[100..104].copy_from_slice(&[1, 2, 3, 4]);
    let mut read = vec![0u8; 8192];
    flash.read(max3263::Address(0), &mut read).unwrap();
    assert_eq!(read, expected);
}

#[test]
fn max3263_overwrite_sets_bits_again() {
    let mut flash = max_flash(0);
    flash.write(max3263::Address(16), &[0x00, 0x0F, 0xF0, 0x55]).unwrap();
    flash.write(max3263::Address(16), &[0xFF, 0xF0, 0x0F, 0xAA]).unwrap();
    let mut read = [0u8; 4];
    flash.read(max3263::Address(16), &mut read).unwrap();
    assert_eq!(read, [0xFF, 0xF0, 0x0F, 0xAA]);
}

#[test]
fn max3263_erase_leaves_erased_bytes() {
    let mut flash = max_flash(2);
    flash.write(max3263::Address(0), &pattern(9000 - 9000 % 4)).unwrap();
    flash.erase().unwrap();
    let mut read = vec![0u8; 10_000];
    flash.read(max3263::Address(0), &mut read).unwrap();
    assert_eq!(read, vec![0xFF; 10_000]);
    let page = max3263::Page::at(max3263::Address(8192)).unwrap();
    flash.write(max3263::Address(8000), &[0u8; 400]).unwrap();
    flash.erase_page(page).unwrap();
    let mut read = vec![0u8; 400];
    flash.read(max3263::Address(8000), &mut read).unwrap();
    assert_eq!(&read[..192], &[0u8; 192]);
    assert_eq!(&read[192..], &[0xFFu8; 208]);
}

#[test]
fn max3263_busy_controller_makes_operations_yield() {
    let mut flash = max_flash(2);
    flash.flc.erase_block(0);
    assert_eq!(flash.write(max3263::Address(0), &[0u8; 4]), Err(nb::Error::WouldBlock));
    assert_eq!(flash.erase(), Err(nb::Error::WouldBlock));
    assert_eq!(flash.erase(), Ok(()));
    flash.flc.erase_block(0);
    let page = max3263::Page::at(max3263::Address(0)).unwrap();
    assert_eq!(flash.erase_page(page), Err(nb::Error::WouldBlock));
    assert_eq!(flash.write_range(max3263::Address(0), &[0u8; 4]), Err(nb::Error::WouldBlock));
    assert_eq!(flash.write_range(max3263::Address(0), &[0u8; 4]), Ok(()));
    // Reading does not wait for the controller.
    flash.flc.erase_block(0);
    let mut read = [0u8; 4];
    assert_eq!(flash.read(max3263::Address(0), &mut read), Ok(()));
}

#[test]
fn max3263_unaligned_and_unreachable_writes_are_turned_down() {
    let mut flash = max_flash(0);
    let unaligned = Err(nb::Error::Other(max3263::FlashError::UnalignedAccess));
    let out_of_range = Err(nb::Error::Other(max3263::FlashError::AddressOutOfRange));
    assert_eq!(flash.write(max3263::Address(2), &[0u8; 4]), unaligned);
    assert_eq!(flash.write(max3263::Address(4), &[0u8; 3]), unaligned);
    assert_eq!(flash.write_range(max3263::Address(1), &[0u8; 4]), unaligned);
    assert_eq!(flash.write(max3263::Address(0x20_0000), &[0u8; 4]), out_of_range);
    assert_eq!(flash.write(max3263::Address(0x1F_FFFC), &[0u8; 8]), out_of_range);
    assert_eq!(flash.write(max3263::Address(0x1F_FFFC), &[0u8; 4]), Ok(()));
    let mut read = [0u8; 8];
    assert_eq!(flash.read(max3263::Address(0x1F_FFFC), &mut read), out_of_range);
    assert_eq!(flash.read(max3263::Address(0x1F_FFF8), &mut read), Ok(()));
    assert_eq!(read, [0xFF, 0xFF, 0xFF, 0xFF, 0, 0, 0, 0]);
    // Bad alignment is reported before a busy controller, and a busy
    // controller before a bad address.
    flash.flc.busy_polls = 2;
    assert_eq!(flash.write(max3263::Address(2), &[0u8; 4]), unaligned);
    assert_eq!(flash.write(max3263::Address(0x20_0000), &[0u8; 4]), Err(nb::Error::WouldBlock));
}

#[test]
fn max3263_faults_are_reported_by_the_operation_they_hit() {
    let failing = || {
        let mut flash = max_flash(1);
        flash.flc.faulty = true;
        flash.flc.next_fault = Some(());
        flash
    };
    let page = max3263::Page::at(max3263::Address(0)).unwrap();
    let mut flash = failing();
    assert_eq!(
        flash.erase_page(page),
        Err(nb::Error::Other(max3263::FlashError::PageEraseFailed))
    );
    let mut flash = failing();
    assert_eq!(
        flash.write_range(max3263::Address(0), &[0u8; 8]),
        Err(nb::Error::Other(max3263::FlashError::WriteFailed))
    );
    let mut flash = failing();
    assert_eq!(flash.erase(), Err(nb::Error::Other(max3263::FlashError::MassEraseFailed)));
    let mut flash = failing();
    assert_eq!(
        flash.write(max3263::Address(0), &[0u8; 8]),
        Err(nb::Error::Other(max3263::FlashError::PageEraseFailed))
    );
    // The flag is cleared when it is read.
    assert_eq!(flash.write(max3263::Address(0), &[0u8; 8]), Ok(()));
}

#[test]
fn max3263_failed_write_leaves_other_pages_alone() {
    let mut flash = max_flash(0);
    flash.write(max3263::Address(0), &pattern(3 * 8192)).unwrap();
    flash.flc.faulty = true;
    flash.flc.next_fault = Some(());
    assert!(flash.write(max3263::Address(8192), &[0u8; 8192]).is_err());
    let mut read = vec![0u8; 3 * 8192];
    flash.read(max3263::Address(0), &mut read).unwrap();
    let expected = pattern(3 * 8192);
    assert_eq!(&read[..8192], &expected[..8192]);
    assert_eq!(&read[2 * 8192..], &expected[2 * 8192..]);
}

#[test]
fn max3263_write_from_blocks_writes_the_blocks_in_order() {
    let mut flash = max_flash(1);
    let blocks: Vec<[u8; 64]> = (0..100u32).map(|i| [i as u8; 64]).collect();
    flash.write_from_blocks(max3263::Address(4096), &blocks).unwrap();
    let mut read = vec![0u8; 6400 + 8];
    flash.read(max3263::Address(4092), &mut read).unwrap();
    assert_eq!(&read[..4], &[0xFF; 4]);
    assert_eq!(&read[6404..], &[0xFF; 4]);
    for (index, byte) in read[4..6404].iter().enumerate() {
        assert_eq!(*byte, (index / 64) as u8);
    }
    assert_eq!(
        flash.write_from_blocks(max3263::Address(2), &blocks),
        Err(max3263::FlashError::UnalignedAccess)
    );
}

#[test]
fn transfers_cut_the_blocks_into_pieces_of_the_transfer_size() {
    let blocks: Vec<[u8; 4]> = (0..5u8).map(|i| [4 * i, 4 * i + 1, 4 * i + 2, 4 * i + 3]).collect();
    let cut = transfers(&blocks, 8);
    assert_eq!(
        cut,
        vec![
            vec![0, 1, 2, 3, 4, 5, 6, 7],
            vec![8, 9, 10, 11, 12, 13, 14, 15],
            vec![16, 17, 18, 19]
        ]
    );
    let cut = transfers(&blocks[..4], 8);
    assert_eq!(cut, vec![vec![0, 1, 2, 3, 4, 5, 6, 7], vec![8, 9, 10, 11, 12, 13, 14, 15], vec![]]);
    let none: [[u8; 4]; 0] = [];
    assert_eq!(transfers(&none, 8), vec![Vec::<u8>::new()]);
}

#[test]
fn efm32_geometry() {
    assert_eq!(efm32::PAGE_SIZE, 4 * 1024);
    assert_eq!(efm32::PAGE_COUNT, 512);
    assert_eq!(efm32::MEMORY_SIZE, efm32::PAGE_SIZE * efm32::PAGE_COUNT);
    let pages = efm32::PageMap::pages();
    assert_eq!(pages.len(), 512);
    assert_eq!(pages.len(), efm32::MEMORY_SIZE / efm32::PAGE_SIZE);
    assert_eq!(pages[5].0, 5);
    assert_eq!(pages[5].address(), efm32::Address(5 * 4096));
    assert!(pages[5].contains(efm32::Address(6 * 4096 - 1)));
    assert!(!pages[5].contains(efm32::Address(6 * 4096)));
    assert!(efm32::PageMap.contains(efm32::Address(0x1F_FFFF)));
    assert!(!efm32::PageMap.contains(efm32::Address(0x20_0000)));
    let flash = efm_flash(0);
    assert_eq!(flash.range(), (efm32::Address(0), efm32::Address(0x20_0000)));
    assert_eq!(EfmFlash::label(), "efm32gg11b flash (Internal)");
}

#[test]
fn efm32_write_then_read_gives_the_bytes_back() {
    for latency in [0usize, 2] {
        let mut flash = efm_flash(latency);
        let written = pattern(10_000);
        flash.write(efm32::Address(4092), &written).unwrap();
        let mut read = vec![0u8; 10_000];
        flash.read(efm32::Address(4092), &mut read).unwrap();
        assert_eq!(read, written);
        flash.write(efm32::Address(5000), &[9, 9, 9, 9]).unwrap();
        flash.read(efm32::Address(4092), &mut read).unwrap();
        let mut expected = written.clone();
        expected[908..912].copy_from_slice(&[9, 9, 9, 9]);
        assert_eq!(read, expected);
    }
}

#[test]
fn efm32_misaligned_writes_are_turned_down_even_when_busy() {
    let mut flash = efm_flash(1);
    let misaligned = Err(nb::Error::Other(efm32::FlashError::MisalignedAccess));
    assert_eq!(flash.write(efm32::Address(1), &[0u8; 4]), misaligned);
    assert_eq!(flash.write(efm32::Address(0), &[0u8; 5]), misaligned);
    flash.msc.busy_polls = 1;
    assert_eq!(flash.write(efm32::Address(1), &[0u8; 4]), misaligned);
    assert_eq!(flash.write(efm32::Address(0), &[0u8; 4]), Err(nb::Error::WouldBlock));
    assert_eq!(flash.write(efm32::Address(0), &[0u8; 4]), Ok(()));
    let page = efm32::Page(0);
    assert_eq!(flash.write_page(&[0u8; 16], page), misaligned);
    flash.msc.busy_polls = 1;
    assert_eq!(flash.erase_page(page), Err(nb::Error::WouldBlock));
    flash.msc.busy_polls = 1;
    assert_eq!(flash.write_page(&[0u8; 4096], page), Err(nb::Error::WouldBlock));
    flash.msc.busy_polls = 1;
    assert_eq!(flash.erase(), Err(nb::Error::WouldBlock));
}

#[test]
fn efm32_reads_reach_up_to_the_last_byte() {
    let mut flash = efm_flash(0);
    let unreachable = Err(nb::Error::Other(efm32::FlashError::MemoryNotReachable));
    let mut read = [0u8; 4];
    assert_eq!(flash.read(efm32::Address(0x20_0000), &mut read), unreachable);
    assert_eq!(flash.read(efm32::Address(0x1F_FFFD), &mut read), unreachable);
    assert_eq!(read, [0u8; 4]);
    assert_eq!(flash.read(efm32::Address(0x1F_FFFC), &mut read), Ok(()));
    assert_eq!(read, [0xFF; 4]);
    let mut all = vec![0u8; efm32::MEMORY_SIZE];
    assert_eq!(flash.read(efm32::Address(0), &mut all), Ok(()));
    all.push(0);
    assert_eq!(flash.read(efm32::Address(0), &mut all), unreachable);
}

#[test]
fn efm32_writes_its_last_page() {
    let mut flash = efm_flash(0);
    assert_eq!(flash.write(efm32::Address(0x1F_F000), &[1, 2, 3, 4]), Ok(()));
    assert_eq!(flash.write(efm32::Address(0x1F_EFFC), &[5u8; 8]), Ok(()));
    assert_eq!(flash.write(efm32::Address(0x1F_FFFC), &[9, 8, 7, 6]), Ok(()));
    let mut read = vec![0u8; 4096 + 4];
    assert_eq!(flash.read(efm32::Address(0x1F_EFFC), &mut read), Ok(()));
    assert_eq!(&read[..12], &[5, 5, 5, 5, 5, 5, 5, 5, 0xFF, 0xFF, 0xFF, 0xFF]);
    assert_eq!(&read[4096..], &[9, 8, 7, 6]);
    // Bytes from the end of the flash on are left out.
    assert_eq!(flash.write(efm32::Address(0x20_0000), &[0u8; 4]), Ok(()));
}

#[test]
fn efm32_faults_are_reported_by_their_kind() {
    let page = efm32::Page(2);
    let mut flash = efm_flash(1);
    flash.msc.faulty = true;
    flash.msc.next_fault = Some(efm32::Fault::Locked);
    assert_eq!(
        flash.erase_page(page),
        Err(nb::Error::Other(efm32::FlashError::MemoryIsLocked))
    );
    flash.msc.next_fault = Some(efm32::Fault::InvalidAddress);
    assert_eq!(
        flash.write_page(&[0u8; 4096], page),
        Err(nb::Error::Other(efm32::FlashError::InvalidAddress))
    );
    flash.msc.next_fault = Some(efm32::Fault::Locked);
    assert_eq!(
        flash.write(efm32::Address(0), &[0u8; 4]),
        Err(nb::Error::Other(efm32::FlashError::MemoryIsLocked))
    );
    flash.msc.fault = Some(efm32::Fault::InvalidAddress);
    assert_eq!(
        flash.verify_status(),
        Err(nb::Error::Other(efm32::FlashError::InvalidAddress))
    );
    assert_eq!(flash.verify_status(), Ok(()));
}

#[test]
fn efm32_erase_leaves_erased_bytes() {
    let mut flash = efm_flash(3);
    flash.write(efm32::Address(4096), &pattern(8000)).unwrap();
    flash.erase().unwrap();
    let mut read = vec![0u8; 9000];
    flash.read(efm32::Address(4000), &mut read).unwrap();
    assert_eq!(read, vec![0xFF; 9000]);
}

#[test]
fn efm32_write_from_blocks_writes_the_blocks_in_order() {
    let mut flash = efm_flash(0);
    let blocks: Vec<[u8; 256]> = (0..40u32).map(|i| [i as u8; 256]).collect();
    flash.write_from_blocks(efm32::Address(8192), &blocks).unwrap();
    let mut read = vec![0u8; 40 * 256];
    flash.read(efm32::Address(8192), &mut read).unwrap();
    for (index, byte) in read.iter().enumerate() {
        assert_eq!(*byte, (index / 256) as u8);
    }
}

#[test]
fn fake_controller_programs_by_clearing_bits() {
    let mut controller: FakeController<()> = FakeController::new(2, 16, 0);
    controller.program_word(4, &[0xF0, 0x0F, 0xFF, 0x00]);
    controller.program_word(4, &[0x3C, 0x3C, 0x3C, 0x3C]);
    let mut read = [0u8; 8];
    controller.read(0, &mut read);
    assert_eq!(read, [0xFF, 0xFF, 0xFF, 0xFF, 0x30, 0x0C, 0x3C, 0x00]);
    controller.erase_block(0);
    controller.read(0, &mut read);
    assert_eq!(read, [0xFF; 8]);
    assert_eq!(controller.take_fault(), None);
    assert!(!controller.is_busy());
}

#[test]
fn max3263_misaligned_writes_are_turned_down_even_when_busy() {
    let mut flash = max_flash(2);
    flash.flc.erase_block(0);
    let unaligned = Err(nb::Error::Other(max3263::FlashError::UnalignedAccess));
    assert_eq!(flash.write(max3263::Address(2), &[0u8; 4]), unaligned);
    assert_eq!(flash.write(max3263::Address(0), &[0u8; 3]), unaligned);
    // The controller is as busy as it was.
    assert_eq!(flash.write(max3263::Address(0), &[0u8; 4]), Err(nb::Error::WouldBlock));
}

#[test]
fn max3263_erase_leaves_the_fault_flag_down() {
    let mut flash = max_flash(0);
    flash.flc.faulty = true;
    flash.flc.next_fault = Some(());
    assert_eq!(flash.erase(), Err(nb::Error::Other(max3263::FlashError::MassEraseFailed)));
    assert_eq!(flash.flc.fault, None);
    assert_eq!(flash.erase(), Ok(()));
    assert_eq!(flash.flc.fault, None);
}

#[test]
fn efm32_erase_reports_the_fault_of_the_controller() {
    let mut flash = efm_flash(1);
    flash.msc.faulty = true;
    flash.msc.next_fault = Some(efm32::Fault::Locked);
    assert_eq!(flash.erase(), Err(nb::Error::Other(efm32::FlashError::MemoryIsLocked)));
    assert_eq!(flash.msc.fault, None);
    assert_eq!(flash.erase(), Ok(()));
}

#[test]
fn efm32_bytes_come_back_through_the_byte_iterator() {
    let mut flash = efm_flash(0);
    let written = pattern(5000);
    flash.write(efm32::Address(4096), &written).unwrap();
    let bytes = flash.bytes(efm32::Address(4096)).take(&mut flash, 5000);
    assert_eq!(bytes, written);
}
