use embedded_db::flash::{FlashError, FlashStorage, PAGE_SIZE};

#[test]
fn flash_starts_erased() {
    let flash = FlashStorage::new(2);
    assert_eq!(flash.capacity(), 2 * PAGE_SIZE);
    let bytes = flash.read(0, 16).unwrap();
    assert_eq!(bytes, vec![0xFFu8; 16]);
}

#[test]
fn flash_write_and_read_back() {
    let mut flash = FlashStorage::new(1);
    flash.write(4, &[1, 2, 3, 4, 5]).unwrap();
    assert_eq!(flash.read(4, 5).unwrap(), vec![1, 2, 3, 4, 5]);
    // the trailing bytes of the last word keep their erased state
    assert_eq!(flash.read(9, 3).unwrap(), vec![0xFF, 0xFF, 0xFF]);
}

#[test]
fn flash_write_unaligned_offset_rejected() {
    let mut flash = FlashStorage::new(1);
    let before = flash.read(0, 64).unwrap();
    assert_eq!(flash.write(2, &[9, 9]), Err(FlashError::Unaligned));
    // nothing was written
    assert_eq!(flash.read(0, 64).unwrap(), before);
}

#[test]
fn flash_write_out_of_bounds_rejected() {
    let mut flash = FlashStorage::new(1);
    assert_eq!(
        flash.write(PAGE_SIZE as u32 - 4, &[1, 2, 3, 4, 5]),
        Err(FlashError::OutOfBounds)
    );
}

#[test]
fn flash_erase_unaligned_bounds_rejected() {
    let mut flash = FlashStorage::new(2);
    assert_eq!(flash.erase(100, PAGE_SIZE as u32), Err(FlashError::Unaligned));
    assert_eq!(flash.erase(0, 100), Err(FlashError::Unaligned));
}

#[test]
fn flash_erase_out_of_bounds_rejected() {
    let mut flash = FlashStorage::new(1);
    assert_eq!(
        flash.erase(0, 2 * PAGE_SIZE as u32),
        Err(FlashError::OutOfBounds)
    );
}

#[test]
fn flash_erase_resets_page_to_ones() {
    let mut flash = FlashStorage::new(2);
    flash.write(0, &[0, 0, 0, 0]).unwrap();
    flash.erase(0, PAGE_SIZE as u32).unwrap();
    assert_eq!(flash.read(0, 4).unwrap(), vec![0xFF; 4]);
}

#[test]
fn flash_write_clears_bits_only() {
    let mut flash = FlashStorage::new(1);
    flash.write(0, &[0b1111_0000]).unwrap();
    // a second write can only clear bits: the result is the AND
    flash.write(0, &[0b1010_1010]).unwrap();
    assert_eq!(flash.read(0, 1).unwrap(), vec![0b1010_0000]);
}

#[test]
fn flash_read_out_of_bounds_rejected() {
    let flash = FlashStorage::new(1);
    assert_eq!(
        flash.read(PAGE_SIZE as u32 - 2, 4),
        Err(FlashError::OutOfBounds)
    );
}
