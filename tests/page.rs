use durinsbane_engine::page_inner::PageInner;
use durinsbane_engine::page_layout::PAGE_SIZE;
use durinsbane_engine::{Idx, Key, StoreError};
use memmap2::MmapMut;

fn anon() -> MmapMut {
    let mut m = MmapMut::map_anon(PAGE_SIZE).unwrap();
    m.as_mut().fill(0xEE);
    m
}

#[test]
fn new_page_zeroes_only_the_bitmap() {
    let page: PageInner<u8> = PageInner::new(anon()).unwrap();
    assert_eq!(page.len(), 0);
    assert_eq!(page.layout().cap, 24);
    let bytes = page.as_bytes();
    assert_eq!(&bytes[0..3], &[0, 0, 0]);
    assert!(bytes[3..].iter().all(|b| *b == 0xEE));
}

#[test]
fn new_page_rejects_wrong_size() {
    let m = MmapMut::map_anon(64).unwrap();
    assert_eq!(PageInner::<u8>::new(m).err(), Some(StoreError::Corrupt));
    let m = MmapMut::map_anon(64).unwrap();
    assert_eq!(PageInner::<u8>::parse(m).err(), Some(StoreError::Corrupt));
}

#[test]
fn insert_writes_entry_and_bitmap() {
    let mut page: PageInner<u8> = PageInner::new(anon()).unwrap();
    assert_eq!(page.insert(Key::new(0x0102_0304), 10), Ok(None));
    assert_eq!(page.insert(Key::new(2), 20), Ok(None));
    let bytes = page.as_bytes();
    assert_eq!(bytes[0], 0b0000_0011);
    assert_eq!(&bytes[3..8], &[0x04, 0x03, 0x02, 0x01, 10]);
    assert_eq!(&bytes[8..13], &[2, 0, 0, 0, 20]);
    let e = page.get_by_key(Key::new(2)).unwrap();
    assert_eq!(e.key(), Key::new(2));
    assert_eq!(e.val(), 20);
    let e = page.get_by_idx(Idx::new(0)).unwrap();
    assert_eq!(e.key(), Key::new(0x0102_0304));
    assert_eq!(e.val(), 10);
}

#[test]
fn insert_existing_key_replaces_value() {
    let mut page: PageInner<u8> = PageInner::new(anon()).unwrap();
    assert_eq!(page.insert(Key::new(5), 1), Ok(None));
    assert_eq!(page.insert(Key::new(5), 2), Ok(Some(1)));
    assert_eq!(page.len(), 1);
    assert_eq!(page.get_by_key(Key::new(5)).unwrap().val(), 2);
}

#[test]
fn page_full_and_lookup_errors() {
    let mut page: PageInner<u8> = PageInner::new(anon()).unwrap();
    for k in 0..24u32 {
        assert_eq!(page.insert(Key::new(k), k as u8), Ok(None));
    }
    assert!(page.is_full());
    assert_eq!(page.insert(Key::new(99), 1), Err(StoreError::PageFull));
    assert_eq!(page.get_by_key(Key::new(99)).err(), Some(StoreError::KeyNotFound));
    assert_eq!(page.delete(Key::new(99)), Err(StoreError::KeyNotFound));
    assert_eq!(page.delete(Key::new(3)), Ok(()));
    assert_eq!(page.get_by_idx(Idx::new(3)).err(), Some(StoreError::SlotVacant));
    assert!(page.is_idx_vacant(Idx::new(3)));
    assert_eq!(page.as_bytes()[0], 0b1111_0111);
}

#[test]
fn delete_then_insert_takes_slot_zero() {
    let mut page: PageInner<u8> = PageInner::new(anon()).unwrap();
    assert_eq!(page.insert(Key::new(1), 1), Ok(None));
    assert_eq!(page.delete(Key::new(1)), Ok(()));
    assert!(!page.has_key(Key::new(1)));
    assert_eq!(page.insert(Key::new(2), 2), Ok(None));
    assert_eq!(page.lookup_idx(Key::new(2)), Some(Idx::new(0)));
    assert_eq!(page.lookup_key(Idx::new(0)), Some(Key::new(2)));
}

#[test]
fn reparse_rebuilds_same_slots() {
    let mut page: PageInner<u8> = PageInner::new(anon()).unwrap();
    for k in [11u32, 12, 13, 14, 15] {
        assert_eq!(page.insert(Key::new(k), k as u8), Ok(None));
    }
    assert_eq!(page.delete(Key::new(12)), Ok(()));
    assert_eq!(page.delete(Key::new(14)), Ok(()));
    assert_eq!(page.insert(Key::new(16), 16), Ok(None));
    let slots: Vec<Option<Key>> = (0..24).map(|i| page.lookup_key(Idx::new(i))).collect();
    let again: PageInner<u8> = PageInner::parse(page.into_map()).unwrap();
    let slots_again: Vec<Option<Key>> = (0..24).map(|i| again.lookup_key(Idx::new(i))).collect();
    assert_eq!(slots, slots_again);
    assert_eq!(again.len(), 4);
    assert_eq!(again.get_by_key(Key::new(16)).unwrap().val(), 16);
    assert_eq!(again.lookup_idx(Key::new(16)), Some(Idx::new(1)));
    assert_eq!(again.keys(), vec![Key::new(11), Key::new(16), Key::new(13), Key::new(15)]);
}

#[test]
fn parse_rejects_duplicate_keys() {
    let mut m = anon();
    m.as_mut()[0] = 0b11;
    m.as_mut()[3..7].copy_from_slice(&8u32.to_le_bytes());
    m.as_mut()[8..12].copy_from_slice(&8u32.to_le_bytes());
    assert_eq!(PageInner::<u8>::parse(m).err(), Some(StoreError::Corrupt));
}

#[test]
fn wide_values_round_trip() {
    let mut page: PageInner<u32> = PageInner::new(anon()).unwrap();
    assert_eq!(page.layout().cap, 15);
    assert_eq!(page.insert(Key::new(1), 0xDEAD_BEEF), Ok(None));
    assert_eq!(page.insert(Key::new(1), 7), Ok(Some(0xDEAD_BEEF)));
    let again: PageInner<u32> = PageInner::parse(page.into_map()).unwrap();
    assert_eq!(again.get_by_key(Key::new(1)).unwrap().val(), 7);
}
