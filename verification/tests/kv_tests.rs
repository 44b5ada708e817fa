use embedded_db::kv::KvStore;

#[test]
fn it_works() {
    assert!(true)
}

#[test]
fn kv_put_get_basic() {
    let mut kv: KvStore<u32> = KvStore::new(4);
    assert_eq!(kv.capacity(), 4);
    assert_eq!(kv.len(), 0);
    assert!(!kv.is_full());
    assert_eq!(kv.put(7, 70), Ok(None));
    assert_eq!(kv.len(), 1);
    assert_eq!(kv.get(&7), Some(&70));
    assert_eq!(kv.get(&8), None);
}

#[test]
fn kv_overwrite_returns_previous_and_keeps_position() {
    let mut kv: KvStore<u32> = KvStore::new(4);
    kv.put(1, 10).unwrap();
    kv.put(2, 20).unwrap();
    kv.put(3, 30).unwrap();
    assert_eq!(kv.put(2, 21), Ok(Some(20)));
    let entries: Vec<(u32, u32)> = kv.iter().clone();
    assert_eq!(entries, vec![(1, 10), (2, 21), (3, 30)]);
    assert_eq!(kv.len(), 3);
}

#[test]
fn kv_full_rejects_new_key_and_returns_pair() {
    let mut kv: KvStore<u32> = KvStore::new(2);
    kv.put(1, 10).unwrap();
    kv.put(2, 20).unwrap();
    assert!(kv.is_full());
    assert_eq!(kv.put(3, 30), Err((3, 30)));
    assert_eq!(kv.len(), 2);
    // overwriting while full still succeeds
    assert_eq!(kv.put(1, 11), Ok(Some(10)));
    assert_eq!(kv.get(&1), Some(&11));
}

#[test]
fn kv_remove_keeps_order() {
    let mut kv: KvStore<u32> = KvStore::new(4);
    kv.put(1, 10).unwrap();
    kv.put(2, 20).unwrap();
    kv.put(3, 30).unwrap();
    assert_eq!(kv.remove(&2), Some(20));
    assert_eq!(kv.remove(&2), None);
    let entries: Vec<(u32, u32)> = kv.iter().clone();
    assert_eq!(entries, vec![(1, 10), (3, 30)]);
}

#[test]
fn kv_get_mut_updates_in_place() {
    let mut kv: KvStore<u32> = KvStore::new(4);
    kv.put(5, 50).unwrap();
    kv.put(6, 60).unwrap();
    if let Some(v) = kv.get_mut(&5) {
        *v = 55;
    } else {
        panic!("key 5 should be present");
    }
    assert_eq!(kv.get_mut(&9), None);
    assert_eq!(kv.get(&5), Some(&55));
    let entries: Vec<(u32, u32)> = kv.iter().clone();
    assert_eq!(entries, vec![(5, 55), (6, 60)]);
}

#[test]
fn kv_clear_empties() {
    let mut kv: KvStore<u32> = KvStore::new(3);
    kv.put(1, 10).unwrap();
    kv.put(2, 20).unwrap();
    kv.clear();
    assert_eq!(kv.len(), 0);
    assert_eq!(kv.get(&1), None);
    assert_eq!(kv.capacity(), 3);
}
