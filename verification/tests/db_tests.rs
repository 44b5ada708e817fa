use embedded_db::codec::{Json, Postcard};
use embedded_db::db::{Database, FlashError};
use embedded_db::flash::FlashStorage;

type Db = Database<u32, Postcard>;

fn filled(pairs: &[(u32, u32)]) -> Db {
    let mut db = Db::new(16, 256, 4);
    for &(k, v) in pairs {
        db.put(k, v).unwrap();
    }
    db
}

#[test]
fn put_then_get_round_trips() {
    let mut db = filled(&[(1, 100), (2, 200)]);
    assert_eq!(db.get(&1), Ok(Some(100)));
    assert_eq!(db.get(&2), Ok(Some(200)));
    assert_eq!(db.get(&3), Ok(None));
}

#[test]
fn put_then_get_round_trips_json() {
    let mut db: Database<u32, Json> = Database::new(8, 64, 2);
    db.put(10, 12345).unwrap();
    assert_eq!(db.get(&10), Ok(Some(12345)));
    assert_eq!(db.get_uncached(&10), Ok(Some(12345)));
}

#[test]
fn put_on_full_store_fails_and_changes_nothing() {
    let mut db = Database::<u32, Postcard>::new(2, 256, 2);
    db.put(1, 10).unwrap();
    db.put(2, 20).unwrap();
    assert_eq!(db.put(3, 30), Err(()));
    assert_eq!(db.len(), 2);
    assert_eq!(db.get_uncached(&1), Ok(Some(10)));
    assert_eq!(db.get_uncached(&2), Ok(Some(20)));
    assert_eq!(db.get_uncached(&3), Ok(None));
}

#[test]
fn overwrite_never_consumes_capacity() {
    let mut db = Database::<u32, Postcard>::new(2, 256, 2);
    db.put(1, 1).unwrap();
    db.put(2, 2).unwrap();
    // the store is full; overwriting still succeeds
    db.put(1, 11).unwrap();
    db.put(1, 111).unwrap();
    assert_eq!(db.len(), 2);
    assert_eq!(db.get(&1), Ok(Some(111)));
}

#[test]
fn put_rejects_value_that_cannot_fit_blob_bound() {
    let mut db = Database::<u32, Postcard>::new(4, 1, 2);
    // 300 encodes to two bytes, over the one-byte blob bound
    assert_eq!(db.put(300, 300), Err(()));
    assert_eq!(db.len(), 0);
    // a one-byte encoding still fits
    db.put(1, 100).unwrap();
    assert_eq!(db.get(&1), Ok(Some(100)));
}

#[test]
fn delete_present_then_absent() {
    let mut db = filled(&[(1, 100), (2, 200)]);
    assert!(db.delete(&1));
    assert_eq!(db.get(&1), Ok(None));
    assert_eq!(db.get_uncached(&1), Ok(None));
    assert!(!db.delete(&1));
    assert_eq!(db.len(), 1);
    assert_eq!(db.get(&2), Ok(Some(200)));
}

#[test]
fn cache_transparency_over_mixed_operations() {
    // a small cache forces evictions; get and get_uncached must always agree
    let mut db = Database::<u32, Postcard>::new(8, 16, 2);
    for k in 0..6u32 {
        db.put(k, k * 11).unwrap();
    }
    db.delete(&3);
    db.put(1, 999).unwrap();
    for k in 0..6u32 {
        let uncached = db.get_uncached(&k);
        let cached = db.get(&k);
        assert_eq!(cached, uncached, "key {k} diverged");
        // a second get (now surely cached) must agree too
        assert_eq!(db.get(&k), uncached);
    }
}

#[test]
fn len_and_capacity_delegate_to_index() {
    let mut db = Database::<u32, Postcard>::new(5, 16, 2);
    assert_eq!(db.capacity(), 5);
    assert_eq!(db.len(), 0);
    db.put(1, 1).unwrap();
    assert_eq!(db.len(), 1);
}

#[test]
fn flash_round_trip() {
    let mut flash = FlashStorage::new(16);
    let db = filled(&[(1, 100), (2, 200), (3, 300)]);
    db.save_to_flash(&mut flash, 0).unwrap();

    let mut fresh = Db::new(16, 256, 4);
    fresh.load_from_flash(&flash, 0).unwrap();
    assert_eq!(fresh.len(), 3);
    assert_eq!(fresh.get_uncached(&1), Ok(Some(100)));
    assert_eq!(fresh.get_uncached(&2), Ok(Some(200)));
    assert_eq!(fresh.get_uncached(&3), Ok(Some(300)));
}

#[test]
fn load_from_erased_flash_leaves_store_unchanged() {
    let flash = FlashStorage::new(16);
    let mut db = filled(&[(7, 77)]);
    // the header word reads all-ones: success, nothing loaded
    assert_eq!(db.load_from_flash(&flash, 0), Ok(()));
    assert_eq!(db.len(), 1);
    assert_eq!(db.get_uncached(&7), Ok(Some(77)));
}

#[test]
fn save_twice_is_idempotent() {
    let mut flash = FlashStorage::new(16);
    let db = filled(&[(1, 100), (2, 200), (3, 300)]);

    db.save_to_flash(&mut flash, 0).unwrap();
    let first = flash.read(0, 8192).unwrap();
    let mut loaded_first = Db::new(16, 256, 4);
    loaded_first.load_from_flash(&flash, 0).unwrap();

    db.save_to_flash(&mut flash, 0).unwrap();
    let second = flash.read(0, 8192).unwrap();
    let mut loaded_second = Db::new(16, 256, 4);
    loaded_second.load_from_flash(&flash, 0).unwrap();

    assert_eq!(first, second);
    assert_eq!(loaded_first.len(), loaded_second.len());
    for k in [1u32, 2, 3] {
        assert_eq!(loaded_first.get_uncached(&k), loaded_second.get_uncached(&k));
    }
}

#[test]
fn save_at_unaligned_offset_gives_erase_error() {
    let mut flash = FlashStorage::new(16);
    let before = flash.read(0, 64).unwrap();
    let db = filled(&[(1, 100)]);
    assert_eq!(db.save_to_flash(&mut flash, 100), Err(FlashError::EraseError));
    assert_eq!(flash.read(0, 64).unwrap(), before);
}

#[test]
fn save_beyond_region_gives_erase_error() {
    let mut flash = FlashStorage::new(1);
    let db = filled(&[(1, 100)]);
    assert_eq!(
        db.save_to_flash(&mut flash, 4096),
        Err(FlashError::EraseError)
    );
}

#[test]
fn save_too_large_image_gives_buffer_too_small() {
    let mut flash = FlashStorage::new(16);
    let mut db = Database::<u32, Postcard>::new(1024, 16, 2);
    // each record takes about ten bytes; a thousand entries cannot fit 8192
    for k in 0..1000u32 {
        db.put(k, k).unwrap();
    }
    let before = flash.read(0, 64).unwrap();
    assert_eq!(
        db.save_to_flash(&mut flash, 0),
        Err(FlashError::BufferTooSmall)
    );
    assert_eq!(flash.read(0, 64).unwrap(), before);
}

#[test]
fn load_window_too_short_gives_read_error() {
    let flash = FlashStorage::new(1);
    let mut db = Db::new(16, 256, 4);
    assert_eq!(db.load_from_flash(&flash, 4094), Err(FlashError::ReadError));
    assert_eq!(db.load_from_flash(&flash, 4096), Err(FlashError::ReadError));
}

#[test]
fn load_truncated_record_gives_buffer_too_small() {
    let mut flash = FlashStorage::new(2);
    // header: one entry; key length 9000 reads past the window
    flash.write(0, &[1, 0, 0, 0, 0x28, 0x23, 0, 0]).unwrap();
    let mut db = Db::new(16, 256, 4);
    assert_eq!(db.load_from_flash(&flash, 0), Err(FlashError::BufferTooSmall));
    assert_eq!(db.len(), 0);
}

#[test]
fn load_undecodable_key_gives_deserialization_error() {
    let mut flash = FlashStorage::new(2);
    // header: one entry; a five-byte key that is not a valid varint
    flash
        .write(0, &[1, 0, 0, 0, 5, 0, 0, 0, 0xFF, 0xFF, 0xFF, 0xFF, 0xFF])
        .unwrap();
    let mut db = Db::new(16, 256, 4);
    assert_eq!(
        db.load_from_flash(&flash, 0),
        Err(FlashError::DeserializationError)
    );
}

#[test]
fn load_over_capacity_gives_database_full() {
    let mut flash = FlashStorage::new(16);
    let db = filled(&[(1, 100), (2, 200), (3, 300)]);
    db.save_to_flash(&mut flash, 0).unwrap();

    let mut small = Database::<u32, Postcard>::new(2, 256, 2);
    assert_eq!(
        small.load_from_flash(&flash, 0),
        Err(FlashError::DatabaseFull)
    );
    // the load is destructive on failure: what was parsed so far remains
    assert_eq!(small.len(), 2);
}

#[test]
fn load_oversized_blob_gives_buffer_too_small() {
    let mut flash = FlashStorage::new(16);
    let db = filled(&[(1, 300)]);
    db.save_to_flash(&mut flash, 0).unwrap();
    // the saved blob is two bytes; a store with a one-byte blob bound rejects it
    let mut tiny = Database::<u32, Postcard>::new(16, 1, 2);
    assert_eq!(
        tiny.load_from_flash(&flash, 0),
        Err(FlashError::BufferTooSmall)
    );
}

#[test]
fn save_load_at_nonzero_offset() {
    let mut flash = FlashStorage::new(16);
    let db = filled(&[(42, 4242)]);
    db.save_to_flash(&mut flash, 8192).unwrap();
    let mut fresh = Db::new(16, 256, 4);
    fresh.load_from_flash(&flash, 8192).unwrap();
    assert_eq!(fresh.len(), 1);
    assert_eq!(fresh.get_uncached(&42), Ok(Some(4242)));
    // the region before the image is untouched (still erased)
    assert_eq!(flash.read(0, 4).unwrap(), vec![0xFF; 4]);
}

#[test]
fn save_empty_store_and_load_back() {
    let mut flash = FlashStorage::new(16);
    let db = Db::new(16, 256, 4);
    db.save_to_flash(&mut flash, 0).unwrap();
    // the header now reads zero entries, not the erased word
    assert_eq!(flash.read(0, 4).unwrap(), vec![0, 0, 0, 0]);
    let mut fresh = filled(&[(9, 9)]);
    fresh.load_from_flash(&flash, 0).unwrap();
    assert_eq!(fresh.len(), 0);
}

#[test]
fn load_replaces_existing_contents() {
    let mut flash = FlashStorage::new(16);
    let saved = filled(&[(1, 100)]);
    saved.save_to_flash(&mut flash, 0).unwrap();

    // a store with other data is cleared and rebuilt from the image
    let mut db = filled(&[(9, 900), (8, 800)]);
    db.load_from_flash(&flash, 0).unwrap();
    assert_eq!(db.len(), 1);
    assert_eq!(db.get_uncached(&1), Ok(Some(100)));
    assert_eq!(db.get_uncached(&9), Ok(None));
    assert_eq!(db.get(&8), Ok(None));
}
