use blue_hal::hal::doubles::flash::Address;
use blue_hal::hal::doubles::flash::FakeError;
use blue_hal::hal::doubles::flash::FakeFlash;
use blue_hal::hal::doubles::flash::MEMORY_SIZE;
use blue_hal::hal::doubles::flash::PAGE_SIZE;
use blue_hal::hal::doubles::flash::SECTOR_SIZE;
use blue_hal::hal::flash::ReadWrite;
use blue_hal::hal::flash::ITERATOR_BUFFER_SIZE;

#[test]
fn iterating_over_fake_flash() {
    let mut expected_bytes = Vec::new();
    for i in 0..10000 {
        expected_bytes.push(i as u8);
    }
    let mut flash = FakeFlash::new(Address(0));
    flash.write(Address(0), expected_bytes.as_slice()).unwrap();
    let bytes: Vec<u8> = flash.bytes(Address(0)).take(&mut flash, 10000);
    assert_eq!(expected_bytes, bytes);
}

#[test]
fn fake_flash_has_pages_of_256_and_sectors_of_65536_bytes() {
    assert_eq!(PAGE_SIZE, 256);
    assert_eq!(SECTOR_SIZE, 65536);
    assert_eq!(MEMORY_SIZE, 16 * SECTOR_SIZE);
    let flash = FakeFlash::new(Address(0x1000));
    assert_eq!(flash.range(), (Address(0x1000), Address(0x1000 + MEMORY_SIZE as u32)));
    assert_eq!(FakeFlash::label(), "Fake flash");
}

#[test]
fn fake_flash_reads_back_what_was_written() {
    let mut flash = FakeFlash::new(Address(0x100));
    flash.write(Address(0x1FE), &[1, 2, 3, 4, 5]).unwrap();
    let mut bytes = [0u8; 9];
    flash.read(Address(0x1FC), &mut bytes).unwrap();
    assert_eq!(bytes, [0xFF, 0xFF, 1, 2, 3, 4, 5, 0xFF, 0xFF]);
}

#[test]
fn fake_flash_reads_erased_bytes_after_erase() {
    let mut flash = FakeFlash::new(Address(0));
    flash.write(Address(10), &[0u8; 300]).unwrap();
    flash.erase().unwrap();
    let mut bytes = [0u8; 400];
    flash.read(Address(0), &mut bytes).unwrap();
    assert_eq!(bytes, [0xFFu8; 400]);
}

#[test]
fn fake_flash_turns_down_what_lies_outside() {
    let mut flash = FakeFlash::new(Address(0x100));
    let mut bytes = [0u8; 4];
    let out_of_range = Err(nb::Error::Other(FakeError::AddressOutOfRange));
    assert_eq!(flash.read(Address(0xFF), &mut bytes), out_of_range);
    assert_eq!(flash.write(Address(0xFF), &bytes), out_of_range);
    let end = 0x100 + MEMORY_SIZE as u32;
    assert_eq!(flash.read(Address(end - 3), &mut bytes), out_of_range);
    assert_eq!(flash.write(Address(end - 3), &bytes), out_of_range);
    assert_eq!(flash.read(Address(end - 4), &mut bytes), Ok(()));
    assert_eq!(flash.write(Address(end - 4), &bytes), Ok(()));
}

#[test]
fn byte_iterator_ends_for_good_at_the_first_failed_read() {
    let mut flash = FakeFlash::new(Address(0));
    let start = MEMORY_SIZE - 2 * ITERATOR_BUFFER_SIZE;
    flash.write(Address(start as u32), &[7u8; 16]).unwrap();
    let mut iterator = flash.bytes(Address(start as u32));
    let bytes = iterator.take(&mut flash, 3 * ITERATOR_BUFFER_SIZE);
    assert_eq!(bytes.len(), 2 * ITERATOR_BUFFER_SIZE);
    assert_eq!(&bytes[..17], &[7, 7, 7, 7, 7, 7, 7, 7, 7, 7, 7, 7, 7, 7, 7, 7, 0xFF]);
    assert_eq!(iterator.next(&mut flash), None);
    assert_eq!(iterator.next(&mut flash), None);
}

#[test]
fn byte_iterator_needs_no_aligned_start() {
    let mut flash = FakeFlash::new(Address(0));
    let written: Vec<u8> = (0..5000u32).map(|i| (i % 251) as u8).collect();
    flash.write(Address(3), &written).unwrap();
    let mut iterator = flash.bytes(Address(3));
    for expected in &written {
        assert_eq!(iterator.next(&mut flash), Some(*expected));
    }
}

#[test]
fn fake_flash_writes_blocks_one_after_the_other() {
    let mut flash = FakeFlash::new(Address(0));
    let blocks: Vec<[u8; 128]> = (0..600u32).map(|i| [(i % 256) as u8; 128]).collect();
    flash.write_from_blocks(Address(256), &blocks).unwrap();
    let mut bytes = vec![0u8; 600 * 128 + 2];
    flash.read(Address(255), &mut bytes).unwrap();
    assert_eq!(bytes[0], 0xFF);
    assert_eq!(bytes[600 * 128 + 1], 0xFF);
    for (index, byte) in bytes[1..600 * 128 + 1].iter().enumerate() {
        assert_eq!(*byte, ((index / 128) % 256) as u8);
    }
}

#[test]
fn byte_iterator_goes_on_with_the_piece_that_a_read_brought() {
    let mut flash = FakeFlash::new(Address(0));
    let piece: Vec<u8> = (0..ITERATOR_BUFFER_SIZE).map(|i| (i % 200) as u8).collect();
    let mut iterator = flash.bytes(Address(0));
    assert_eq!(iterator.resume(Some(piece.clone())), Some(0));
    // The rest of the piece comes without a read: the flash holds other bytes.
    let rest = iterator.take(&mut flash, ITERATOR_BUFFER_SIZE - 1);
    assert_eq!(rest, piece[1..].to_vec());
    // The next piece is read behind the first.
    flash.write(Address(ITERATOR_BUFFER_SIZE as u32), &[7, 8, 9]).unwrap();
    assert_eq!(iterator.take(&mut flash, 3), vec![7, 8, 9]);
    // Without a piece the iterator has ended for good.
    let mut ended = flash.bytes(Address(0));
    assert_eq!(ended.resume(None), None);
    assert_eq!(ended.next(&mut flash), None);
    assert_eq!(ended.take(&mut flash, 4), vec![]);
}
