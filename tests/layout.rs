use durinsbane_engine::page_entry::{EntryValue, PageEntry};
use durinsbane_engine::page_layout::{PageLayout, PAGE_SIZE};
use durinsbane_engine::{BookId, Idx, IdxOrKey, Key};

fn fits(cap: usize, size: usize, align: usize) -> bool {
    let bitmap = (cap + 7) / 8;
    let start = if bitmap % align == 0 { bitmap } else { bitmap + (align - bitmap % align) };
    start + cap * size <= PAGE_SIZE
}

#[test]
fn capacity_for_five_byte_entries() {
    let layout = PageLayout::new(5, 1);
    assert_eq!(layout.cap, 24);
    assert_eq!(layout.bitmap_bytes, 3);
    assert_eq!(layout.array_start, 3);
    assert_eq!(layout.total_usage, 123);
    assert_eq!(layout.wasted_bytes, 5);
}

#[test]
fn capacity_is_largest_that_fits() {
    for size in 1..=40usize {
        for align in [1usize, 2, 4, 8] {
            let layout = PageLayout::new(size, align);
            assert!(fits(layout.cap, size, align));
            assert!(!fits(layout.cap + 1, size, align));
            let brute = (0..=PAGE_SIZE).filter(|c| fits(*c, size, align)).max().unwrap();
            assert_eq!(layout.cap, brute);
        }
    }
}

#[test]
fn capacity_with_alignment_padding() {
    let layout = PageLayout::new(8, 4);
    assert_eq!(layout.cap, 15);
    assert_eq!(layout.bitmap_bytes, 2);
    assert_eq!(layout.array_start, 4);
    assert_eq!(layout.total_usage, 124);
}

#[test]
fn capacity_of_oversized_entry_is_zero() {
    let layout = PageLayout::new(200, 1);
    assert_eq!(layout.cap, 0);
    assert_eq!(layout.total_usage, 0);
}

#[test]
fn entry_offsets() {
    let layout = PageLayout::new(5, 1);
    assert_eq!(layout.entry_offset(0), 3);
    assert_eq!(layout.entry_offset(23), 3 + 23 * 5);
}

#[test]
fn bitmap_bits_are_lsb_first() {
    let layout = PageLayout::new(5, 1);
    let mut bytes = vec![0u8; PAGE_SIZE];
    bytes[0] = 0b0000_0101;
    bytes[1] = 0b1000_0000;
    assert!(!layout.nth_is_vacant(&bytes, 0));
    assert!(layout.nth_is_vacant(&bytes, 1));
    assert!(!layout.nth_is_vacant(&bytes, 2));
    assert!(!layout.nth_is_vacant(&bytes, 15));
    assert!(layout.nth_is_vacant(&bytes, 8));
}

#[test]
fn entry_iter_walks_slots_in_order() {
    let layout = PageLayout::new(5, 1);
    let mut bytes = vec![0u8; PAGE_SIZE];
    bytes[0] = 0b0000_0010;
    let off = layout.entry_offset(1);
    bytes[off..off + 4].copy_from_slice(&0x0102_0304u32.to_le_bytes());
    let mut it = layout.page_entry_iter(&bytes);
    assert_eq!(it.next(), Some((Idx::new(0), None)));
    assert_eq!(it.next(), Some((Idx::new(1), Some(Key::new(0x0102_0304)))));
    let mut n = 2;
    while let Some((idx, key)) = it.next() {
        assert_eq!(idx, Idx::new(n));
        assert_eq!(key, None);
        n += 1;
    }
    assert_eq!(n, 24);
    assert_eq!(it.next(), None);
}

#[test]
fn value_codec_is_little_endian() {
    assert_eq!(0x1122_3344u32.encode(), vec![0x44, 0x33, 0x22, 0x11]);
    assert_eq!(u32::decode(&[0, 0x44, 0x33, 0x22, 0x11], 1), 0x1122_3344);
    assert_eq!(7u8.encode(), vec![7]);
    assert_eq!(u8::decode(&[1, 2, 3], 2), 3);
    assert_eq!(<u32 as EntryValue>::byte_width(), 4);
}

#[test]
fn entry_is_packed_key_then_value() {
    let e = PageEntry::new(Key::new(0x0000_0102), 9u8);
    assert_eq!(e.encode(), vec![0x02, 0x01, 0, 0, 9]);
    let bytes = [0u8, 0x02, 0x01, 0, 0, 9];
    let r = PageEntry::<u8>::as_ref(&bytes, 1);
    assert_eq!(r.key(), Key::new(0x102));
    assert_eq!(r.val(), 9);
}

#[test]
fn identifiers() {
    assert_eq!(Idx::new(7).as_usize(), 7);
    assert_eq!(Idx::default(), Idx::new(0));
    assert_eq!(Key::default(), Key::new(0));
    assert_eq!(BookId::new(3).val, 3);
    assert_ne!(IdxOrKey::Idx(Idx::new(1)), IdxOrKey::Key(Key::new(1)));
    assert!(Key::new(1) < Key::new(2));
}

#[test]
fn wide_value_codecs_are_little_endian() {
    assert_eq!(0x1122u16.encode(), vec![0x22, 0x11]);
    assert_eq!(u16::decode(&[0x22, 0x11], 0), 0x1122);
    let v = 0x0102_0304_0506_0708u64;
    assert_eq!(v.encode(), vec![8, 7, 6, 5, 4, 3, 2, 1]);
    assert_eq!(u64::decode(&[0, 8, 7, 6, 5, 4, 3, 2, 1], 1), v);
    assert_eq!(<u64 as EntryValue>::byte_width(), 8);
}
