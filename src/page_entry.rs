//! Packed `(key, value)` entries and their byte-level codec.
use vstd::prelude::*;

use core::marker::PhantomData;
use memmap2::MmapMut;

use crate::mapped::{mapped, mapped_bytes, set_mapped_byte};
use crate::Key;

verus! {

/// Bytes of the key at the start of every entry.
pub const KEY_BYTES: usize = 4;

/// A fixed-width value stored little-endian, byte by byte, with no alignment.
pub trait EntryValue: Sized + Copy {
    /// Number of bytes a value takes.
    spec fn width() -> nat;

    /// The bytes of a value.
    spec fn to_bytes(self) -> Seq<u8>;

    /// The value that `b` holds.
    spec fn from_bytes(b: Seq<u8>) -> Self;

    proof fn lemma_codec(self)
        ensures
            self.to_bytes().len() == Self::width(),
            Self::from_bytes(self.to_bytes()) == self,
    ;

    proof fn lemma_width()
        ensures
            1 <= Self::width() <= 8,
    ;

    fn byte_width() -> (r: usize)
        ensures
            r == Self::width(),
    ;

    fn encode(&self) -> (r: Vec<u8>)
        ensures
            r@ == self.to_bytes(),
    ;

    fn decode(bytes: &[u8], off: usize) -> (r: Self)
        requires
            off + Self::width() <= bytes@.len(),
        ensures
            r == Self::from_bytes(bytes@.subrange(off as int, off + Self::width())),
    ;
}

impl EntryValue for u8 {
    open spec fn width() -> nat {
        1
    }

    open spec fn to_bytes(self) -> Seq<u8> {
        seq![self]
    }

    open spec fn from_bytes(b: Seq<u8>) -> u8 {
        b[0]
    }

    proof fn lemma_codec(self) {
    }

    proof fn lemma_width() {
    }

    fn byte_width() -> (r: usize) {
        1
    }

    fn encode(&self) -> (r: Vec<u8>) {
        vec![*self]
    }

    fn decode(bytes: &[u8], off: usize) -> (r: u8) {
        bytes[off]
    }
}

impl EntryValue for u32 {
    open spec fn width() -> nat {
        4
    }

    open spec fn to_bytes(self) -> Seq<u8> {
        seq![
            (self & 0xff) as u8,
            ((self >> 8u32) & 0xff) as u8,
            ((self >> 16u32) & 0xff) as u8,
            (self >> 24u32) as u8,
        ]
    }

    open spec fn from_bytes(b: Seq<u8>) -> u32 {
        (b[0] as u32) | ((b[1] as u32) << 8u32) | ((b[2] as u32) << 16u32) | ((b[3] as u32)
            << 24u32)
    }

    proof fn lemma_codec(self) {
        let v = self;
        let b = self.to_bytes();
        let (b0, b1, b2, b3) = (b[0], b[1], b[2], b[3]);
        assert(((b0 as u32) | ((b1 as u32) << 8u32) | ((b2 as u32) << 16u32) | ((b3 as u32)
            << 24u32)) == v) by (bit_vector)
            requires
                b0 == (v & 0xff) as u8,
                b1 == ((v >> 8u32) & 0xff) as u8,
                b2 == ((v >> 16u32) & 0xff) as u8,
                b3 == (v >> 24u32) as u8,
        ;
    }

    proof fn lemma_width() {
    }

    fn byte_width() -> (r: usize) {
        4
    }

    fn encode(&self) -> (r: Vec<u8>) {
        let v = *self;
        let r = vec![
            (v & 0xff) as u8,
            ((v >> 8u32) & 0xff) as u8,
            ((v >> 16u32) & 0xff) as u8,
            (v >> 24u32) as u8,
        ];
        assert(r@ =~= self.to_bytes());
        r
    }

    fn decode(bytes: &[u8], off: usize) -> (r: u32) {
        let r = (bytes[off] as u32) | ((bytes[off + 1] as u32) << 8u32) | ((bytes[off + 2] as u32)
            << 16u32) | ((bytes[off + 3] as u32) << 24u32);
        let ghost sub = bytes@.subrange(off as int, off + 4);
        assert(sub[0] == bytes@[off as int] && sub[1] == bytes@[off + 1] && sub[2] == bytes@[off
            + 2] && sub[3] == bytes@[off + 3]);
        r
    }
}

impl EntryValue for u16 {
    open spec fn width() -> nat {
        2
    }

    open spec fn to_bytes(self) -> Seq<u8> {
        seq![(self & 0xff) as u8, (self >> 8u16) as u8]
    }

    open spec fn from_bytes(b: Seq<u8>) -> u16 {
        (b[0] as u16) | ((b[1] as u16) << 8u16)
    }

    proof fn lemma_codec(self) {
        let v = self;
        let b = self.to_bytes();
        let (b0, b1) = (b[0], b[1]);
        assert(((b0 as u16) | ((b1 as u16) << 8u16)) == v) by (bit_vector)
            requires
                b0 == (v & 0xff) as u8,
                b1 == (v >> 8u16) as u8,
        ;
    }

    proof fn lemma_width() {
    }

    fn byte_width() -> (r: usize) {
        2
    }

    fn encode(&self) -> (r: Vec<u8>) {
        let v = *self;
        let r = vec![(v & 0xff) as u8, (v >> 8u16) as u8];
        assert(r@ =~= self.to_bytes());
        r
    }

    fn decode(bytes: &[u8], off: usize) -> (r: u16) {
        let r = (bytes[off] as u16) | ((bytes[off + 1] as u16) << 8u16);
        let ghost sub = bytes@.subrange(off as int, off + 2);
        assert(sub[0] == bytes@[off as int] && sub[1] == bytes@[off + 1]);
        r
    }
}

impl EntryValue for u64 {
    open spec fn width() -> nat {
        8
    }

    open spec fn to_bytes(self) -> Seq<u8> {
        seq![
            (self & 0xff) as u8,
            ((self >> 8u64) & 0xff) as u8,
            ((self >> 16u64) & 0xff) as u8,
            ((self >> 24u64) & 0xff) as u8,
            ((self >> 32u64) & 0xff) as u8,
            ((self >> 40u64) & 0xff) as u8,
            ((self >> 48u64) & 0xff) as u8,
            (self >> 56u64) as u8,
        ]
    }

    open spec fn from_bytes(b: Seq<u8>) -> u64 {
        (b[0] as u64) | ((b[1] as u64) << 8u64) | ((b[2] as u64) << 16u64) | ((b[3] as u64)
            << 24u64) | ((b[4] as u64) << 32u64) | ((b[5] as u64) << 40u64) | ((b[6] as u64)
            << 48u64) | ((b[7] as u64) << 56u64)
    }

    proof fn lemma_codec(self) {
        let v = self;
        let b = self.to_bytes();
        let (b0, b1, b2, b3, b4, b5, b6, b7) = (b[0], b[1], b[2], b[3], b[4], b[5], b[6], b[7]);
        assert(((b0 as u64) | ((b1 as u64) << 8u64) | ((b2 as u64) << 16u64) | ((b3 as u64)
            << 24u64) | ((b4 as u64) << 32u64) | ((b5 as u64) << 40u64) | ((b6 as u64) << 48u64)
            | ((b7 as u64) << 56u64)) == v) by (bit_vector)
            requires
                b0 == (v & 0xff) as u8,
                b1 == ((v >> 8u64) & 0xff) as u8,
                b2 == ((v >> 16u64) & 0xff) as u8,
                b3 == ((v >> 24u64) & 0xff) as u8,
                b4 == ((v >> 32u64) & 0xff) as u8,
                b5 == ((v >> 40u64) & 0xff) as u8,
                b6 == ((v >> 48u64) & 0xff) as u8,
                b7 == (v >> 56u64) as u8,
        ;
    }

    proof fn lemma_width() {
    }

    fn byte_width() -> (r: usize) {
        8
    }

    fn encode(&self) -> (r: Vec<u8>) {
        let v = *self;
        let r = vec![
            (v & 0xff) as u8,
            ((v >> 8u64) & 0xff) as u8,
            ((v >> 16u64) & 0xff) as u8,
            ((v >> 24u64) & 0xff) as u8,
            ((v >> 32u64) & 0xff) as u8,
            ((v >> 40u64) & 0xff) as u8,
            ((v >> 48u64) & 0xff) as u8,
            (v >> 56u64) as u8,
        ];
        assert(r@ =~= self.to_bytes());
        r
    }

    fn decode(bytes: &[u8], off: usize) -> (r: u64) {
        let r = (bytes[off] as u64) | ((bytes[off + 1] as u64) << 8u64) | ((bytes[off + 2] as u64)
            << 16u64) | ((bytes[off + 3] as u64) << 24u64) | ((bytes[off + 4] as u64) << 32u64)
            | ((bytes[off + 5] as u64) << 40u64) | ((bytes[off + 6] as u64) << 48u64) | ((bytes[off
            + 7] as u64) << 56u64);
        let ghost sub = bytes@.subrange(off as int, off + 8);
        assert(sub[0] == bytes@[off as int] && sub[1] == bytes@[off + 1] && sub[2] == bytes@[off
            + 2] && sub[3] == bytes@[off + 3] && sub[4] == bytes@[off + 4] && sub[5] == bytes@[off
            + 5] && sub[6] == bytes@[off + 6] && sub[7] == bytes@[off + 7]);
        r
    }
}

/// `s` with the bytes from `off` on replaced by `b`.
pub open spec fn splice(s: Seq<u8>, off: int, b: Seq<u8>) -> Seq<u8> {
    s.subrange(0, off) + b + s.subrange(off + b.len(), s.len() as int)
}

/// Writes `b` into the mapping from byte `off` on, one byte at a time.
pub(crate) fn write_bytes(m: &mut MmapMut, off: usize, b: &Vec<u8>)
    requires
        off + b@.len() <= mapped_bytes(*old(m)).len(),
    ensures
        mapped_bytes(*final(m)) == splice(mapped_bytes(*old(m)), off as int, b@),
{
    let ghost orig = mapped_bytes(*m);
    let total = mapped(m).len();
    let mut i: usize = 0;
    while i < b.len()
        invariant
            off + b@.len() <= orig.len(),
            orig.len() == total,
            i <= b@.len(),
            mapped_bytes(*m) == splice(orig, off as int, b@.subrange(0, i as int)),
        decreases b@.len() - i,
    {
        set_mapped_byte(m, off + i, b[i]);
        assert(mapped_bytes(*m) =~= splice(orig, off as int, b@.subrange(0, i + 1)));
        i = i + 1;
    }
    assert(b@.subrange(0, b@.len() as int) =~= b@);
}

/// A key and a value, as they are laid out in a slot.
#[derive(Debug)]
pub struct PageEntry<V> {
    pub key: Key,
    pub val: V,
}

/// The bytes of an entry: the key, then the value, with no padding.
pub open spec fn entry_bytes<V: EntryValue>(key: u32, val: V) -> Seq<u8> {
    key.to_bytes() + val.to_bytes()
}

impl<V: EntryValue> PageEntry<V> {
    pub fn new(key: Key, val: V) -> (r: Self)
        ensures
            r.key == key,
            r.val == val,
    {
        PageEntry { key, val }
    }

    /// Reads the entry at byte `offset` of `bytes`.
    pub fn as_ref<'a>(bytes: &'a [u8], offset: usize) -> (r: PageEntryRef<'a, V>)
        requires
            offset + KEY_BYTES + V::width() <= bytes@.len(),
        ensures
            r.bytes@ == bytes@,
            r.offset == offset,
    {
        PageEntryRef { bytes, offset, _value: PhantomData }
    }

    /// Writes the entry at byte `offset` of a mapping.
    pub fn as_mut(offset: usize) -> (r: PageEntryMut<V>)
        ensures
            r.offset == offset,
    {
        PageEntryMut { offset, _value: PhantomData }
    }

    /// The entry's bytes as they are stored.
    pub fn encode(&self) -> (r: Vec<u8>)
        ensures
            r@ == entry_bytes(self.key.val, self.val),
    {
        let mut r = self.key.val.encode();
        let mut v = self.val.encode();
        r.append(&mut v);
        r
    }
}

/// Read access to the entry at a byte offset of a page.
pub struct PageEntryRef<'a, V> {
    pub bytes: &'a [u8],
    pub offset: usize,
    pub _value: PhantomData<V>,
}

impl<'a, V: EntryValue> PageEntryRef<'a, V> {
    pub open spec fn wf(&self) -> bool {
        self.offset + KEY_BYTES + V::width() <= self.bytes@.len()
    }

    pub open spec fn spec_key(&self) -> u32 {
        u32::from_bytes(self.bytes@.subrange(self.offset as int, self.offset + KEY_BYTES))
    }

    pub open spec fn spec_val(&self) -> V {
        V::from_bytes(
            self.bytes@.subrange(self.offset + KEY_BYTES, self.offset + KEY_BYTES + V::width()),
        )
    }

    /// The key field, read byte by byte.
    pub fn key(&self) -> (r: Key)
        requires
            self.wf(),
        ensures
            r.val == self.spec_key(),
    {
        Key::new(u32::decode(self.bytes, self.offset))
    }

    /// The value field, read byte by byte.
    pub fn val(&self) -> (r: V)
        requires
            self.wf(),
        ensures
            r == self.spec_val(),
    {
        let _n = self.bytes.len();
        V::decode(self.bytes, self.offset + KEY_BYTES)
    }
}

/// Write access to the entry at a byte offset of a mapping.
pub struct PageEntryMut<V> {
    pub offset: usize,
    pub _value: PhantomData<V>,
}

impl<V: EntryValue> PageEntryMut<V> {
    /// The key field, read byte by byte.
    pub fn key(&self, m: &MmapMut) -> (r: Key)
        requires
            self.offset + KEY_BYTES <= mapped_bytes(*m).len(),
        ensures
            r.val == u32::from_bytes(
                mapped_bytes(*m).subrange(self.offset as int, self.offset + KEY_BYTES),
            ),
    {
        Key::new(u32::decode(mapped(m), self.offset))
    }

    /// Overwrites the key field and returns the key it held.
    pub fn replace_key(&self, m: &mut MmapMut, key: Key) -> (r: Key)
        requires
            self.offset + KEY_BYTES <= mapped_bytes(*old(m)).len(),
        ensures
            r.val == u32::from_bytes(
                mapped_bytes(*old(m)).subrange(self.offset as int, self.offset + KEY_BYTES),
            ),
            mapped_bytes(*final(m)) == splice(
                mapped_bytes(*old(m)),
                self.offset as int,
                key.val.to_bytes(),
            ),
    {
        let prior = self.key(m);
        let b = key.val.encode();
        proof {
            key.val.lemma_codec();
        }
        write_bytes(m, self.offset, &b);
        prior
    }

    /// The value field, read byte by byte.
    pub fn val(&self, m: &MmapMut) -> (r: V)
        requires
            self.offset + KEY_BYTES + V::width() <= mapped_bytes(*m).len(),
        ensures
            r == V::from_bytes(
                mapped_bytes(*m).subrange(
                    self.offset + KEY_BYTES,
                    self.offset + KEY_BYTES + V::width(),
                ),
            ),
    {
        let bytes = mapped(m);
        let _n = bytes.len();
        V::decode(bytes, self.offset + KEY_BYTES)
    }

    /// Overwrites the value field and returns what its bytes held before.
    pub fn replace_val(&self, m: &mut MmapMut, val: V) -> (r: V)
        requires
            self.offset + KEY_BYTES + V::width() <= mapped_bytes(*old(m)).len(),
        ensures
            r == V::from_bytes(
                mapped_bytes(*old(m)).subrange(
                    self.offset + KEY_BYTES,
                    self.offset + KEY_BYTES + V::width(),
                ),
            ),
            mapped_bytes(*final(m)) == splice(
                mapped_bytes(*old(m)),
                self.offset + KEY_BYTES,
                val.to_bytes(),
            ),
    {
        let prior = self.val(m);
        let _n = mapped(m).len();
        let b = val.encode();
        proof {
            val.lemma_codec();
        }
        write_bytes(m, self.offset + KEY_BYTES, &b);
        prior
    }
}

} // verus!
