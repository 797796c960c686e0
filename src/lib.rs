//! A page-based embedded key-value store core.
//!
//! A page is a fixed-size byte region holding an occupancy bitmap followed by
//! a packed array of `(key, value)` entries. A book groups pages, keeps a
//! key-to-page index and always inserts into the lowest-numbered page that
//! still has a vacant slot.
use vstd::prelude::*;

pub mod book_inner;
pub mod mapped;
pub mod page_entry;
pub mod page_inner;
pub mod page_layout;
pub mod page_meta;

verus! {

/// Position of a slot within a page, or of a page within a book.
#[derive(Clone, Copy, PartialEq, Eq, Structural, PartialOrd, Ord, Hash, Debug)]
pub struct Idx {
    pub val: u32,
}

impl Idx {
    pub fn new(val: u32) -> (r: Self)
        ensures
            r.val == val,
    {
        Idx { val }
    }

    pub fn as_usize(&self) -> (r: usize)
        ensures
            r == self.val,
    {
        self.val as usize
    }
}

impl Default for Idx {
    fn default() -> (r: Self)
        ensures
            r.val == 0,
    {
        Idx { val: 0 }
    }
}

/// A 32-bit key; identity only, unique within a book.
#[derive(Clone, Copy, PartialEq, Eq, Structural, PartialOrd, Ord, Hash, Debug)]
pub struct Key {
    pub val: u32,
}

impl Key {
    pub fn new(val: u32) -> (r: Self)
        ensures
            r.val == val,
    {
        Key { val }
    }

    /// A key drawn at random; any value may come.
    pub fn rand() -> (r: Self) {
        Key { val: random_u32() }
    }
}

/// Relies on `rand::random::<u32>`: a number from the thread-local generator.
/// Nothing is known of which.
#[verifier::external_body]
fn random_u32() -> (r: u32) {
    rand::random::<u32>()
}

/// Relies on `rand::random::<u64>`: a number from the thread-local generator.
/// Nothing is known of which.
#[verifier::external_body]
fn random_u64() -> (r: u64) {
    rand::random::<u64>()
}

impl Default for Key {
    fn default() -> (r: Self)
        ensures
            r.val == 0,
    {
        Key { val: 0 }
    }
}

/// Names a slot of a page either by its position or by the key it holds.
#[derive(Clone, Copy, PartialEq, Eq, Structural, PartialOrd, Ord, Hash, Debug)]
pub enum IdxOrKey {
    Idx(Idx),
    Key(Key),
}

/// Identifies a book (one directory of page files).
#[derive(Clone, Copy, PartialEq, Eq, Structural, PartialOrd, Ord, Hash, Debug)]
pub struct BookId {
    pub val: u64,
}

impl BookId {
    pub fn new(val: u64) -> (r: Self)
        ensures
            r.val == val,
    {
        BookId { val }
    }

    /// A book id drawn at random; any value may come.
    pub fn rand() -> (r: Self) {
        BookId { val: random_u64() }
    }
}

/// What a page or book operation can fail with.
#[derive(Clone, Copy, PartialEq, Eq, Structural, Debug)]
pub enum StoreError {
    /// The key is already stored.
    KeyExists,
    /// The key is not stored.
    KeyNotFound,
    /// The slot holds no entry.
    SlotVacant,
    /// The slot already holds an entry.
    SlotOccupied,
    /// No vacant slot is left.
    PageFull,
    /// Stored bytes contradict the page format or the book's invariants.
    Corrupt,
}

} // verus!
