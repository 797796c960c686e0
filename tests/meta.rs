use durinsbane_engine::page_layout::{PageLayout, PAGE_SIZE};
use durinsbane_engine::page_meta::PageMeta;
use durinsbane_engine::{Idx, IdxOrKey, Key, StoreError};

fn fresh() -> PageMeta {
    PageMeta::new(PageLayout::new(5, 1))
}

#[test]
fn new_meta_is_empty() {
    let m = fresh();
    assert_eq!(m.len(), 0);
    assert_eq!(m.capacity(), 24);
    assert!(!m.is_full());
    assert!(m.is_idx_vacant(Idx::new(0)));
    assert!(m.is_idx_vacant(Idx::new(23)));
    assert!(!m.is_idx_vacant(Idx::new(24)));
    assert!(m.keys().is_empty());
}

#[test]
fn insert_key_takes_smallest_vacant_slot() {
    let mut m = fresh();
    assert_eq!(m.insert_key(Key::new(10)), Ok(Idx::new(0)));
    assert_eq!(m.insert_key(Key::new(11)), Ok(Idx::new(1)));
    assert_eq!(m.insert_key(Key::new(12)), Ok(Idx::new(2)));
    assert_eq!(m.vacate(IdxOrKey::Key(Key::new(11))), Ok((Idx::new(1), Key::new(11))));
    assert_eq!(m.vacate(IdxOrKey::Idx(Idx::new(0))), Ok((Idx::new(0), Key::new(10))));
    assert_eq!(m.insert_key(Key::new(13)), Ok(Idx::new(0)));
    assert_eq!(m.insert_key(Key::new(14)), Ok(Idx::new(1)));
    assert_eq!(m.insert_key(Key::new(15)), Ok(Idx::new(3)));
    assert_eq!(m.len(), 4);
}

#[test]
fn delete_then_insert_reuses_slot_zero() {
    let mut m = fresh();
    assert_eq!(m.insert_key(Key::new(1)), Ok(Idx::new(0)));
    assert!(m.vacate(IdxOrKey::Key(Key::new(1))).is_ok());
    assert_eq!(m.insert_key(Key::new(2)), Ok(Idx::new(0)));
    assert_eq!(m.lookup_idx(Key::new(2)), Some(Idx::new(0)));
    assert_eq!(m.lookup_idx(Key::new(1)), None);
}

#[test]
fn insert_key_errors() {
    let mut m = fresh();
    assert!(m.insert_key(Key::new(5)).is_ok());
    assert_eq!(m.insert_key(Key::new(5)), Err(StoreError::KeyExists));
    for k in 100..123u32 {
        assert!(m.insert_key(Key::new(k)).is_ok());
    }
    assert!(m.is_full());
    assert_eq!(m.insert_key(Key::new(999)), Err(StoreError::PageFull));
    assert_eq!(m.insert_key(Key::new(5)), Err(StoreError::KeyExists));
    assert_eq!(m.len(), 24);
}

#[test]
fn vacate_errors() {
    let mut m = fresh();
    assert_eq!(m.vacate(IdxOrKey::Idx(Idx::new(3))), Err(StoreError::SlotVacant));
    assert_eq!(m.vacate(IdxOrKey::Key(Key::new(3))), Err(StoreError::KeyNotFound));
}

#[test]
fn insert_at_slot() {
    let mut m = fresh();
    assert_eq!(m.insert_idx_and_key(Idx::new(5), Key::new(50)), Ok(()));
    assert_eq!(m.lookup_key(Idx::new(5)), Some(Key::new(50)));
    assert_eq!(m.insert_idx_and_key(Idx::new(5), Key::new(51)), Err(StoreError::SlotOccupied));
    assert_eq!(m.insert_idx_and_key(Idx::new(6), Key::new(50)), Err(StoreError::KeyExists));
    assert_eq!(m.insert_idx_and_key(Idx::new(24), Key::new(52)), Err(StoreError::SlotOccupied));
    assert_eq!(m.insert_key(Key::new(60)), Ok(Idx::new(0)));
}

#[test]
fn replace_key_rewrites_both_maps() {
    let mut m = fresh();
    assert_eq!(m.insert_key(Key::new(1)), Ok(Idx::new(0)));
    assert_eq!(m.insert_key(Key::new(2)), Ok(Idx::new(1)));
    assert_eq!(m.replace_key(Idx::new(0), Key::new(7)), Ok(Key::new(1)));
    assert!(!m.has_key(Key::new(1)));
    assert_eq!(m.lookup_idx(Key::new(7)), Some(Idx::new(0)));
    assert_eq!(m.replace_key(Idx::new(0), Key::new(7)), Ok(Key::new(7)));
    assert_eq!(m.replace_key(Idx::new(0), Key::new(2)), Err(StoreError::KeyExists));
    assert_eq!(m.replace_key(Idx::new(5), Key::new(9)), Err(StoreError::SlotVacant));
}

#[test]
fn keys_lists_every_key() {
    let mut m = fresh();
    for k in [30u32, 10, 20] {
        assert!(m.insert_key(Key::new(k)).is_ok());
    }
    assert_eq!(m.keys(), vec![Key::new(30), Key::new(10), Key::new(20)]);
}

#[test]
fn parse_reads_bitmap_and_keys() {
    let layout = PageLayout::new(5, 1);
    let mut bytes = vec![0xAAu8; PAGE_SIZE];
    bytes[0] = 0b0000_0101;
    bytes[1] = 0;
    bytes[2] = 0;
    for (slot, key) in [(0usize, 7u32), (2, 9)] {
        let off = layout.entry_offset(slot);
        bytes[off..off + 4].copy_from_slice(&key.to_le_bytes());
    }
    let mut m = PageMeta::parse(layout, &bytes).unwrap();
    assert_eq!(m.len(), 2);
    assert_eq!(m.lookup_key(Idx::new(0)), Some(Key::new(7)));
    assert_eq!(m.lookup_key(Idx::new(2)), Some(Key::new(9)));
    assert!(m.is_idx_vacant(Idx::new(1)));
    assert_eq!(m.insert_key(Key::new(1)).map(|_| ()), Ok(()));
}

#[test]
fn parse_rejects_bad_bytes() {
    let layout = PageLayout::new(5, 1);
    assert_eq!(PageMeta::parse(layout, &[0u8; 64]).err(), Some(StoreError::Corrupt));
    let mut bytes = vec![0u8; PAGE_SIZE];
    bytes[0] = 0b0000_0011;
    for slot in 0..2 {
        let off = layout.entry_offset(slot);
        bytes[off..off + 4].copy_from_slice(&5u32.to_le_bytes());
    }
    assert_eq!(PageMeta::parse(layout, &bytes).err(), Some(StoreError::Corrupt));
}
