use durinsbane_engine::book_inner::{checked_page_count, BookInner};
use durinsbane_engine::page_inner::PageInner;
use durinsbane_engine::page_layout::PAGE_SIZE;
use durinsbane_engine::{BookId, Idx, Key, StoreError};
use memmap2::MmapMut;

fn fresh_page() -> PageInner<u8> {
    PageInner::new(MmapMut::map_anon(PAGE_SIZE).unwrap()).unwrap()
}

fn fresh_book() -> BookInner<u8> {
    BookInner::new(BookId::new(0), vec![fresh_page()]).unwrap()
}

/// Inserts, first adding a page when no page has a vacant slot.
fn put(book: &mut BookInner<u8>, key: u32, val: u8) -> Result<Option<u8>, StoreError> {
    if !book.has_key(Key::new(key)) && book.needs_page() {
        let next = book.next_page_idx();
        assert_eq!(book.add_page(fresh_page()), Ok(next));
    }
    book.insert(Key::new(key), val)
}

fn reopen(book: BookInner<u8>) -> BookInner<u8> {
    let id = book.id();
    let pages = book
        .into_pages()
        .into_iter()
        .map(|p| PageInner::parse(p.into_map()).unwrap())
        .collect();
    BookInner::new(id, pages).unwrap()
}

#[test]
fn two_inserts_into_fresh_book() {
    let mut book = fresh_book();
    assert_eq!(book.insert(Key::new(0x0000_0001), 10), Ok(None));
    assert_eq!(book.insert(Key::new(0x0000_0002), 20), Ok(None));
    assert_eq!(book.len(), 2);
    assert!(book.has_key(Key::new(0x0000_0001)));
    assert_eq!(book.page_count(), 1);
    assert_eq!(book.page(Idx::new(0)).unwrap().as_bytes()[0], 0b0000_0011);
    assert_eq!(book.get(Key::new(2)), Some(20));
}

#[test]
fn test_create_book() {
    let mut book = fresh_book();
    assert_eq!(book.len(), 0);
    for i in 0..4u8 {
        let key = Key::rand();
        book.insert(key, i).unwrap();
    }
    assert_eq!(book.len(), 4usize);
}

#[test]
fn distinct_inserts_are_all_counted() {
    let mut book = fresh_book();
    let keys: Vec<u32> = (0..100u32).map(|i| i.wrapping_mul(2_654_435_761)).collect();
    for (i, k) in keys.iter().enumerate() {
        assert_eq!(put(&mut book, *k, i as u8), Ok(None));
        assert_eq!(book.len(), i + 1);
    }
    for (i, k) in keys.iter().enumerate() {
        assert!(book.has_key(Key::new(*k)));
        assert_eq!(book.get(Key::new(*k)), Some(i as u8));
    }
    assert_eq!(book.page_count(), 5);
}

#[test]
fn insert_then_delete_restores_len() {
    let mut book = fresh_book();
    assert_eq!(book.insert(Key::new(1), 1), Ok(None));
    let before = book.len();
    assert_eq!(book.insert(Key::new(77), 7), Ok(None));
    assert_eq!(book.delete(Key::new(77)), Ok(()));
    assert!(!book.has_key(Key::new(77)));
    assert_eq!(book.len(), before);
    assert_eq!(book.get(Key::new(77)), None);
}

#[test]
fn second_insert_of_key_is_refused() {
    let mut book = fresh_book();
    assert_eq!(book.insert(Key::new(9), 1), Ok(None));
    assert_eq!(book.insert(Key::new(9), 2), Err(StoreError::KeyExists));
    assert_eq!(book.get(Key::new(9)), Some(1));
    assert_eq!(book.len(), 1);
}

#[test]
fn overflow_opens_second_page() {
    let mut book = fresh_book();
    let cap = book.page(Idx::new(0)).unwrap().layout().cap as u32;
    assert_eq!(cap, 24);
    for k in 0..cap {
        assert_eq!(put(&mut book, k, 1), Ok(None));
    }
    assert_eq!(book.page_count(), 1);
    assert!(book.page(Idx::new(0)).unwrap().is_full());
    assert!(book.needs_page());
    assert_eq!(book.insert(Key::new(1000), 1), Err(StoreError::PageFull));
    assert_eq!(book.next_page_idx(), Idx::new(1));
    assert_eq!(put(&mut book, 1000, 2), Ok(None));
    assert_eq!(book.page_count(), 2);
    assert!(book.page(Idx::new(0)).unwrap().is_full());
    assert!(book.page(Idx::new(1)).unwrap().has_key(Key::new(1000)));
    assert!(!book.is_partial(Idx::new(0)));
    assert!(book.is_partial(Idx::new(1)));
    assert_eq!(book.len(), 25);
}

#[test]
fn delete_from_full_page_makes_it_partial_again() {
    let mut book = fresh_book();
    for k in 0..25u32 {
        assert_eq!(put(&mut book, k, 0), Ok(None));
    }
    assert_eq!(book.delete(Key::new(3)), Ok(()));
    assert!(book.is_partial(Idx::new(0)));
    assert_eq!(put(&mut book, 500, 5), Ok(None));
    assert!(book.page(Idx::new(0)).unwrap().has_key(Key::new(500)));
    assert!(!book.is_partial(Idx::new(0)));
}

#[test]
fn reopen_keeps_contents_and_partial_pages() {
    let mut book = fresh_book();
    for k in 0..30u32 {
        assert_eq!(put(&mut book, k * 3, k as u8), Ok(None));
    }
    assert_eq!(book.delete(Key::new(9)), Ok(()));
    let len = book.len();
    let partial: Vec<bool> = (0..book.page_count() as u32).map(|p| book.is_partial(Idx::new(p))).collect();
    let book = reopen(book);
    assert_eq!(book.len(), len);
    for k in 0..30u32 {
        assert_eq!(book.has_key(Key::new(k * 3)), k != 3);
        if k != 3 {
            assert_eq!(book.get(Key::new(k * 3)), Some(k as u8));
        }
    }
    let again: Vec<bool> = (0..book.page_count() as u32).map(|p| book.is_partial(Idx::new(p))).collect();
    assert_eq!(partial, again);
    assert_eq!(again, vec![true, true]);
}

#[test]
fn delete_of_absent_key_changes_nothing() {
    let mut book = fresh_book();
    assert_eq!(book.insert(Key::new(4), 4), Ok(None));
    assert_eq!(book.delete(Key::new(5)), Err(StoreError::KeyNotFound));
    assert_eq!(book.len(), 1);
    assert!(book.has_key(Key::new(4)));
    assert_eq!(book.get(Key::new(4)), Some(4));
    assert!(book.is_partial(Idx::new(0)));
    assert_eq!(book.page_count(), 1);
}

#[test]
fn pages_sharing_a_key_are_corrupt() {
    let mut a = fresh_page();
    let mut b = fresh_page();
    assert_eq!(a.insert(Key::new(1), 1), Ok(None));
    assert_eq!(b.insert(Key::new(1), 2), Ok(None));
    assert_eq!(BookInner::new(BookId::new(1), vec![a, b]).err(), Some(StoreError::Corrupt));
}

#[test]
fn add_page_with_known_key_is_corrupt() {
    let mut book = fresh_book();
    assert_eq!(book.insert(Key::new(1), 1), Ok(None));
    let mut p = fresh_page();
    assert_eq!(p.insert(Key::new(1), 3), Ok(None));
    assert_eq!(book.add_page(p), Err(StoreError::Corrupt));
    assert_eq!(book.page_count(), 1);
    assert_eq!(book.get(Key::new(1)), Some(1));
}

#[test]
fn book_without_pages_asks_for_one() {
    let mut book: BookInner<u8> = BookInner::new(BookId::new(2), vec![]).unwrap();
    assert!(book.needs_page());
    assert_eq!(book.insert(Key::new(1), 1), Err(StoreError::PageFull));
    assert_eq!(book.add_page(fresh_page()), Ok(Idx::new(0)));
    assert_eq!(book.insert(Key::new(1), 1), Ok(None));
    assert_eq!(book.id(), BookId::new(2));
}

#[test]
fn page_listing_must_be_contiguous() {
    assert_eq!(checked_page_count(&vec![2, 0, 1]), Ok(3));
    assert_eq!(checked_page_count(&vec![]), Ok(0));
    assert_eq!(checked_page_count(&vec![0, 2]), Err(StoreError::Corrupt));
    assert_eq!(checked_page_count(&vec![1, 1]), Err(StoreError::Corrupt));
}
