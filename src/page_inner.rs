//! A page: mapped bytes and the slot metadata that mirrors their bitmap.
use vstd::prelude::*;

use core::marker::PhantomData;
use memmap2::MmapMut;

use crate::mapped::{mapped, mapped_bytes, set_mapped_byte};
use crate::page_entry::{entry_bytes, splice, write_bytes, EntryValue, PageEntry, PageEntryRef, KEY_BYTES};
use crate::page_layout::{entry_of, key_at, slot_bit, PageLayout, PAGE_SIZE};
use crate::page_meta::{decoded_slots, holds_key, keys_distinct, PageMeta};
use crate::{Idx, IdxOrKey, Key, StoreError};

verus! {

/// The layout of a page holding values of type `V`: entries are packed, so
/// they need no alignment.
pub open spec fn layout_for<V: EntryValue>(layout: PageLayout) -> bool {
    &&& layout.wf()
    &&& layout.entry_size == KEY_BYTES + V::width()
    &&& layout.entry_align == 1
}

/// Slots in a page holding values of type `V`.
pub open spec fn cap_for<V: EntryValue>() -> nat {
    (choose|l: PageLayout| layout_for::<V>(l)).cap as nat
}

/// The value stored in the entry of slot `n`.
pub open spec fn value_at<V: EntryValue>(bytes: Seq<u8>, layout: PageLayout, n: int) -> V {
    V::from_bytes(entry_of(bytes, layout, n).subrange(KEY_BYTES as int, layout.entry_size as int))
}

/// The slot that holds `key`.
pub open spec fn slot_holding(slots: Map<u32, u32>, key: u32) -> u32 {
    choose|i: u32| slots.contains_key(i) && slots[i] == key
}

/// Key to value, for every key that `slots` places in `bytes`.
pub open spec fn page_contents<V: EntryValue>(
    slots: Map<u32, u32>,
    bytes: Seq<u8>,
    layout: PageLayout,
) -> Map<u32, V> {
    Map::new(
        |k: u32| holds_key(slots, k),
        |k: u32| value_at::<V>(bytes, layout, slot_holding(slots, k) as int),
    )
}

proof fn lemma_bit_update(x: u8, j: u8, k: u8)
    requires
        j < 8,
        k < 8,
    ensures
        k == j ==> ((x | (1u8 << j)) >> k) & 1u8 == 1u8,
        k != j ==> ((x | (1u8 << j)) >> k) & 1u8 == (x >> k) & 1u8,
        k == j ==> ((x & !(1u8 << j)) >> k) & 1u8 == 0u8,
        k != j ==> ((x & !(1u8 << j)) >> k) & 1u8 == (x >> k) & 1u8,
{
    assert(k == j ==> ((x | (1u8 << j)) >> k) & 1u8 == 1u8) by (bit_vector)
        requires
            j < 8,
            k < 8,
    ;
    assert(k != j ==> ((x | (1u8 << j)) >> k) & 1u8 == (x >> k) & 1u8) by (bit_vector)
        requires
            j < 8,
            k < 8,
    ;
    assert(k == j ==> ((x & !(1u8 << j)) >> k) & 1u8 == 0u8) by (bit_vector)
        requires
            j < 8,
            k < 8,
    ;
    assert(k != j ==> ((x & !(1u8 << j)) >> k) & 1u8 == (x >> k) & 1u8) by (bit_vector)
        requires
            j < 8,
            k < 8,
    ;
}

/// Sets (`on`) or clears the bitmap bit of slot `n`.
fn write_slot_bit(m: &mut MmapMut, n: usize, on: bool)
    requires
        mapped_bytes(*old(m)).len() == PAGE_SIZE,
        n / 8 < PAGE_SIZE,
    ensures
        mapped_bytes(*final(m)).len() == PAGE_SIZE,
        forall|p: int|
            0 <= p < PAGE_SIZE && p != n / 8 ==> #[trigger] mapped_bytes(*final(m))[p]
                == mapped_bytes(*old(m))[p],
        slot_bit(mapped_bytes(*final(m)), n as int) == on,
        forall|k: int|
            0 <= k < 8 * PAGE_SIZE && k != n ==> #[trigger] slot_bit(mapped_bytes(*final(m)), k)
                == slot_bit(mapped_bytes(*old(m)), k),
{
    let bytes = mapped(m);
    let x = bytes[n / 8];
    let j = (n % 8) as u8;
    let y = if on {
        x | (1u8 << j)
    } else {
        x & !(1u8 << j)
    };
    let ghost before = mapped_bytes(*m);
    set_mapped_byte(m, n / 8, y);
    proof {
        let after = mapped_bytes(*m);
        lemma_bit_update(x, j, j);
        assert forall|k: int| 0 <= k < 8 * PAGE_SIZE && k != n implies #[trigger] slot_bit(after, k)
            == slot_bit(before, k) by {
            if k / 8 == n / 8 {
                assert(k % 8 != n % 8);
                lemma_bit_update(x, j, (k % 8) as u8);
            }
        }
    }
}

/// Entries of distinct slots do not overlap.
proof fn lemma_entries_disjoint(layout: PageLayout, i: int, j: int)
    requires
        layout.wf(),
        0 <= i < layout.cap,
        0 <= j < layout.cap,
        i != j,
    ensures
        layout.offset_of(i) + layout.entry_size <= layout.offset_of(j) || layout.offset_of(j)
            + layout.entry_size <= layout.offset_of(i),
{
    let s = layout.entry_size as int;
    if i < j {
        assert(i * s + s <= j * s) by (nonlinear_arith)
            requires
                i < j,
                s >= 1,
        ;
    } else {
        assert(j * s + s <= i * s) by (nonlinear_arith)
            requires
                j < i,
                s >= 1,
        ;
    }
}

/// A page: `PAGE_SIZE` mapped bytes, an occupancy bitmap at their start, and
/// the metadata that mirrors that bitmap and the keys of the occupied slots.
#[derive(Debug)]
pub struct PageInner<V> {
    data: MmapMut,
    meta: PageMeta,
    _value: PhantomData<V>,
}

impl<V: EntryValue> View for PageInner<V> {
    type V = Map<u32, V>;

    /// Key to value, for every stored entry.
    open spec fn view(&self) -> Map<u32, V> {
        page_contents::<V>(self.slots(), self.bytes(), self.spec_layout())
    }
}

impl<V: EntryValue> PageInner<V> {
    /// The mapped bytes.
    pub closed spec fn bytes(&self) -> Seq<u8> {
        mapped_bytes(self.data)
    }

    /// Slot index to the key it holds.
    pub closed spec fn slots(&self) -> Map<u32, u32> {
        self.meta@
    }

    pub closed spec fn spec_layout(&self) -> PageLayout {
        self.meta.spec_layout()
    }

    pub open spec fn spec_cap(&self) -> nat {
        self.spec_layout().cap as nat
    }

    pub open spec fn spec_is_full(&self) -> bool {
        self.slots().len() == self.spec_cap()
    }

    pub closed spec fn wf(&self) -> bool {
        &&& self.meta.wf()
        &&& layout_for::<V>(self.meta.spec_layout())
        &&& mapped_bytes(self.data).len() == PAGE_SIZE
        &&& decoded_slots(mapped_bytes(self.data), self.meta.spec_layout()) == self.meta@
    }

    /// What holds of every well-formed page.
    pub proof fn lemma_wf(&self)
        requires
            self.wf(),
        ensures
            layout_for::<V>(self.spec_layout()),
            self.bytes().len() == PAGE_SIZE,
            self.slots() == decoded_slots(self.bytes(), self.spec_layout()),
            self.slots().dom().finite(),
            keys_distinct(self.slots()),
            self.slots().len() <= self.spec_cap(),
            forall|i: u32| #[trigger] self.slots().contains_key(i) ==> i < self.spec_cap(),
            self.spec_is_full() <==> forall|i: u32|
                i < self.spec_cap() ==> #[trigger] self.slots().contains_key(i),
            forall|k: u32| #[trigger]
                self@.contains_key(k) <==> holds_key(self.slots(), k),
            self.spec_cap() == cap_for::<V>(),
    {
        self.meta.lemma_wf();
        let l = choose|l: PageLayout| layout_for::<V>(l);
        crate::page_layout::lemma_layout_unique(l, self.spec_layout());
    }

    /// The slots that the bytes of a page spell out are the slots the page
    /// holds, whatever inserts and deletes came before: parsing the bytes
    /// again rebuilds the same metadata.
    pub proof fn lemma_reparse(&self)
        requires
            self.wf(),
        ensures
            self.bytes().len() == PAGE_SIZE,
            keys_distinct(decoded_slots(self.bytes(), self.spec_layout())),
            decoded_slots(self.bytes(), self.spec_layout()) == self.slots(),
    {
        self.lemma_wf();
    }

    /// The slot found for a key is the one that holds it.
    proof fn lemma_slot_holding(slots: Map<u32, u32>, key: u32, i: u32)
        requires
            keys_distinct(slots),
            slots.contains_key(i),
            slots[i] == key,
        ensures
            slot_holding(slots, key) == i,
    {
        let j = slot_holding(slots, key);
        assert(slots.contains_key(j) && slots[j] == key);
    }

    /// A page whose slots are all vacant, over a fresh mapping of `PAGE_SIZE`
    /// bytes; the bitmap is zeroed and the rest left as it is.
    pub fn new(data: MmapMut) -> (r: Result<Self, StoreError>)
        ensures
            match r {
                Ok(page) => {
                    &&& mapped_bytes(data).len() == PAGE_SIZE
                    &&& page.wf()
                    &&& page.slots() == Map::<u32, u32>::empty()
                    &&& page@ == Map::<u32, V>::empty()
                    &&& forall|p: int|
                        0 <= p < page.spec_layout().bitmap_bytes ==> #[trigger] page.bytes()[p]
                            == 0
                    &&& forall|p: int|
                        page.spec_layout().bitmap_bytes <= p < PAGE_SIZE ==> #[trigger] page.bytes()[p]
                            == mapped_bytes(data)[p]
                },
                Err(e) => e == StoreError::Corrupt && mapped_bytes(data).len() != PAGE_SIZE,
            },
    {
        let mut data = data;
        if mapped(&data).len() != PAGE_SIZE {
            return Err(StoreError::Corrupt);
        }
        proof {
            V::lemma_width();
        }
        let layout = PageLayout::new(KEY_BYTES + V::byte_width(), 1);
        let meta = PageMeta::new(layout);
        let ghost orig = mapped_bytes(data);
        let mut p: usize = 0;
        while p < layout.bitmap_bytes
            invariant
                layout.wf(),
                layout.bitmap_bytes <= PAGE_SIZE,
                p <= layout.bitmap_bytes,
                mapped_bytes(data).len() == PAGE_SIZE,
                forall|q: int| 0 <= q < p ==> #[trigger] mapped_bytes(data)[q] == 0,
                forall|q: int| p <= q < PAGE_SIZE ==> #[trigger] mapped_bytes(data)[q] == orig[q],
            decreases layout.bitmap_bytes - p,
        {
            set_mapped_byte(&mut data, p, 0);
            p = p + 1;
        }
        proof {
            let bytes = mapped_bytes(data);
            assert forall|i: u32| i < layout.cap implies !slot_bit(bytes, i as int) by {
                layout.lemma_bitmap_before_entries(i as int);
                let b = bytes[(i as int) / 8];
                let k = (i % 8) as u8;
                assert((b >> k) & 1u8 == 0u8) by (bit_vector)
                    requires
                        b == 0u8,
                ;
            }
            assert(decoded_slots(bytes, layout) =~= Map::<u32, u32>::empty());
        }
        let page = PageInner { data, meta, _value: PhantomData };
        assert(page@ =~= Map::<u32, V>::empty());
        Ok(page)
    }

    /// The page that the bytes of `data` hold.
    pub fn parse(data: MmapMut) -> (r: Result<Self, StoreError>)
        ensures
            match r {
                Ok(page) => {
                    &&& page.wf()
                    &&& page.bytes() == mapped_bytes(data)
                },
                Err(e) => {
                    &&& e == StoreError::Corrupt
                    &&& forall|layout: PageLayout|
                        layout_for::<V>(layout) ==> (mapped_bytes(data).len() != PAGE_SIZE
                            || !keys_distinct(#[trigger] decoded_slots(mapped_bytes(data), layout)))
                },
            },
    {
        proof {
            V::lemma_width();
        }
        let layout = PageLayout::new(KEY_BYTES + V::byte_width(), 1);
        let res = PageMeta::parse(layout, mapped(&data));
        match res {
            Ok(meta) => Ok(PageInner { data, meta, _value: PhantomData }),
            Err(e) => {
                proof {
                    assert forall|l: PageLayout| layout_for::<V>(l) implies (mapped_bytes(data).len()
                        != PAGE_SIZE || !keys_distinct(
                        #[trigger] decoded_slots(mapped_bytes(data), l),
                    )) by {
                        crate::page_layout::lemma_layout_unique(l, layout);
                        assert(l == layout);
                    }
                }
                Err(e)
            },
        }
    }

    /// The bytes of the page.
    pub fn as_bytes(&self) -> (r: &[u8])
        ensures
            r@ == self.bytes(),
    {
        mapped(&self.data)
    }

    /// Gives back the mapping, with the bytes the page left in it.
    pub fn into_map(self) -> (r: MmapMut)
        ensures
            mapped_bytes(r) == self.bytes(),
    {
        self.data
    }

    pub fn layout(&self) -> (r: PageLayout)
        requires
            self.wf(),
        ensures
            r == self.spec_layout(),
    {
        self.meta.layout()
    }

    /// Number of stored entries.
    pub fn len(&self) -> (r: usize)
        requires
            self.wf(),
        ensures
            r == self.slots().len(),
    {
        self.meta.len()
    }

    /// Whether every slot is occupied.
    pub fn is_full(&self) -> (r: bool)
        requires
            self.wf(),
        ensures
            r == self.spec_is_full(),
    {
        self.meta.is_full()
    }

    /// Whether slot `idx` exists and holds no entry.
    pub fn is_idx_vacant(&self, idx: Idx) -> (r: bool)
        requires
            self.wf(),
        ensures
            r == (idx.val < self.spec_cap() && !self.slots().contains_key(idx.val)),
    {
        self.meta.is_idx_vacant(idx)
    }

    /// Whether an entry with `key` is stored.
    pub fn has_key(&self, key: Key) -> (r: bool)
        requires
            self.wf(),
        ensures
            r == self@.contains_key(key.val),
    {
        self.meta.has_key(key)
    }

    /// The key held by slot `idx`.
    pub fn lookup_key(&self, idx: Idx) -> (r: Option<Key>)
        requires
            self.wf(),
        ensures
            match r {
                Some(k) => self.slots().contains_key(idx.val) && self.slots()[idx.val] == k.val,
                None => !self.slots().contains_key(idx.val),
            },
    {
        self.meta.lookup_key(idx)
    }

    /// The slot holding `key`.
    pub fn lookup_idx(&self, key: Key) -> (r: Option<Idx>)
        requires
            self.wf(),
        ensures
            match r {
                Some(i) => self.slots().contains_key(i.val) && self.slots()[i.val] == key.val,
                None => !self@.contains_key(key.val),
            },
    {
        self.meta.lookup_idx(key)
    }

    /// The entry in slot `idx`.
    pub fn get_by_idx(&self, idx: Idx) -> (r: Result<PageEntryRef<'_, V>, StoreError>)
        requires
            self.wf(),
        ensures
            match r {
                Ok(e) => {
                    &&& self.slots().contains_key(idx.val)
                    &&& e.wf()
                    &&& e.spec_key() == self.slots()[idx.val]
                    &&& e.spec_val() == value_at::<V>(self.bytes(), self.spec_layout(), idx.val as int)
                },
                Err(err) => err == StoreError::SlotVacant && !self.slots().contains_key(idx.val),
            },
    {
        proof {
            self.lemma_wf();
        }
        if self.meta.lookup_key(idx).is_none() {
            return Err(StoreError::SlotVacant);
        }
        let layout = self.meta.layout();
        let off = layout.entry_offset(idx.val as usize);
        let e = PageEntry::<V>::as_ref(mapped(&self.data), off);
        proof {
            let ent = entry_of(self.bytes(), layout, idx.val as int);
            assert(ent.subrange(0, KEY_BYTES as int) =~= self.bytes().subrange(
                off as int,
                off + KEY_BYTES,
            ));
            assert(ent.subrange(KEY_BYTES as int, layout.entry_size as int) =~= self.bytes().subrange(
                off + KEY_BYTES,
                off + KEY_BYTES + V::width(),
            ));
        }
        Ok(e)
    }

    /// The entry holding `key`.
    pub fn get_by_key(&self, key: Key) -> (r: Result<PageEntryRef<'_, V>, StoreError>)
        requires
            self.wf(),
        ensures
            match r {
                Ok(e) => {
                    &&& self@.contains_key(key.val)
                    &&& e.wf()
                    &&& e.spec_key() == key.val
                    &&& e.spec_val() == self@[key.val]
                },
                Err(err) => err == StoreError::KeyNotFound && !self@.contains_key(key.val),
            },
    {
        proof {
            self.lemma_wf();
        }
        match self.meta.lookup_idx(key) {
            Some(idx) => {
                proof {
                    Self::lemma_slot_holding(self.slots(), key.val, idx.val);
                }
                match self.get_by_idx(idx) {
                    Ok(e) => Ok(e),
                    Err(err) => Err(err),
                }
            },
            None => Err(StoreError::KeyNotFound),
        }
    }

    /// Stores `val` under `key`. A key already stored keeps its slot and gets
    /// the new value, and the value it had is returned; a new key takes the
    /// smallest vacant slot, which the bitmap then marks occupied.
    pub fn insert(&mut self, key: Key, val: V) -> (r: Result<Option<V>, StoreError>)
        requires
            old(self).wf(),
        ensures
            final(self).wf(),
            final(self).spec_layout() == old(self).spec_layout(),
            match r {
                Ok(Some(prior)) => {
                    &&& old(self)@.contains_key(key.val)
                    &&& prior == old(self)@[key.val]
                    &&& final(self)@ == old(self)@.insert(key.val, val)
                    &&& final(self).slots() == old(self).slots()
                },
                Ok(None) => {
                    &&& !old(self)@.contains_key(key.val)
                    &&& final(self)@ == old(self)@.insert(key.val, val)
                    &&& exists|i: u32|
                        {
                            &&& i < old(self).spec_cap()
                            &&& !old(self).slots().contains_key(i)
                            &&& forall|j: u32| j < i ==> #[trigger] old(self).slots().contains_key(j)
                            &&& final(self).slots() == old(self).slots().insert(i, key.val)
                        }
                },
                Err(e) => {
                    &&& e == StoreError::PageFull
                    &&& !old(self)@.contains_key(key.val)
                    &&& old(self).spec_is_full()
                    &&& final(self)@ == old(self)@
                    &&& final(self).slots() == old(self).slots()
                },
            },
    {
        proof {
            self.lemma_wf();
            V::lemma_width();
        }
        let ghost old_bytes = self.bytes();
        let ghost old_slots = self.slots();
        let ghost old_view = self@;
        let layout = self.meta.layout();
        match self.meta.lookup_idx(key) {
            Some(idx) => {
                let off = layout.entry_offset(idx.val as usize);
                let entry = PageEntry::<V>::as_mut(off);
                let prior = entry.replace_val(&mut self.data, val);
                let _ = self.meta.replace_key(idx, key);
                proof {
                    let i = idx.val as int;
                    let new_bytes = self.bytes();
                    val.lemma_codec();
                    Self::lemma_slot_holding(old_slots, key.val, idx.val);
                    layout.lemma_offset_bounds(i);
                    assert(entry_of(old_bytes, layout, i).subrange(
                        KEY_BYTES as int,
                        layout.entry_size as int,
                    ) =~= old_bytes.subrange(off + KEY_BYTES, off + KEY_BYTES + V::width()));
                    assert(entry_of(new_bytes, layout, i).subrange(
                        KEY_BYTES as int,
                        layout.entry_size as int,
                    ) =~= val.to_bytes());
                    assert(entry_of(new_bytes, layout, i).subrange(0, KEY_BYTES as int)
                        =~= entry_of(old_bytes, layout, i).subrange(0, KEY_BYTES as int));
                    assert forall|j: u32| j < layout.cap && j != idx.val implies entry_of(
                        new_bytes,
                        layout,
                        j as int,
                    ) == entry_of(old_bytes, layout, j as int) by {
                        lemma_entries_disjoint(layout, i, j as int);
                        layout.lemma_offset_bounds(j as int);
                        assert(entry_of(new_bytes, layout, j as int) =~= entry_of(
                            old_bytes,
                            layout,
                            j as int,
                        ));
                    }
                    assert forall|j: u32| j < layout.cap implies slot_bit(new_bytes, j as int)
                        == slot_bit(old_bytes, j as int) && (slot_bit(old_bytes, j as int) ==> key_at(new_bytes, layout, j as int) == key_at(old_bytes, layout, j as int)) by {
                        layout.lemma_bitmap_before_entries(j as int);
                        assert(new_bytes[(j as int) / 8] == old_bytes[(j as int) / 8]);
                    }
                    assert(self.slots() =~= old_slots);
                    assert(decoded_slots(new_bytes, layout) =~= self.slots());
                    assert forall|k: u32| #[trigger] self@.contains_key(k) implies self@[k]
                        == old_view.insert(key.val, val)[k] by {
                        if k != key.val {
                            let s = slot_holding(old_slots, k);
                            assert(old_slots.contains_key(s) && old_slots[s] == k);
                            assert(s != idx.val);
                        }
                    }
                    assert(self@ =~= old_view.insert(key.val, val));
                }
                Ok(Some(prior))
            },
            None => {
                let idx = match self.meta.insert_key(key) {
                    Ok(i) => i,
                    Err(e) => {
                        proof {
                            assert(self.slots() == old_slots);
                            assert(self.bytes() == old_bytes);
                            assert(self@ == old_view);
                            assert(!holds_key(old_slots, key.val));
                            assert(e == StoreError::PageFull);
                            assert(old_slots.len() == layout.cap);
                        }
                        return Err(e);
                    },
                };
                let off = layout.entry_offset(idx.val as usize);
                let bytes = PageEntry::new(key, val).encode();
                proof {
                    key.val.lemma_codec();
                    val.lemma_codec();
                    layout.lemma_offset_bounds(idx.val as int);
                }
                write_bytes(&mut self.data, off, &bytes);
                let ghost mid_bytes = self.bytes();
                proof {
                    layout.lemma_bitmap_before_entries(idx.val as int);
                }
                write_slot_bit(&mut self.data, idx.val as usize, true);
                proof {
                    let i = idx.val as int;
                    let new_bytes = self.bytes();
                    let new_slots = self.slots();
                    assert(entry_of(mid_bytes, layout, i) =~= entry_bytes(key.val, val));
                    assert(entry_of(new_bytes, layout, i) =~= entry_of(mid_bytes, layout, i)) by {
                        assert forall|p: int| 0 <= p < layout.entry_size implies #[trigger] entry_of(
                            new_bytes,
                            layout,
                            i,
                        )[p] == entry_of(mid_bytes, layout, i)[p] by {
                            assert(new_bytes[off + p] == mid_bytes[off + p]);
                        }
                    }
                    assert(entry_of(new_bytes, layout, i).subrange(0, KEY_BYTES as int)
                        =~= key.val.to_bytes());
                    assert(entry_of(new_bytes, layout, i).subrange(
                        KEY_BYTES as int,
                        layout.entry_size as int,
                    ) =~= val.to_bytes());
                    assert forall|j: u32| j < layout.cap && j != idx.val implies entry_of(
                        new_bytes,
                        layout,
                        j as int,
                    ) == entry_of(old_bytes, layout, j as int) by {
                        lemma_entries_disjoint(layout, i, j as int);
                        layout.lemma_offset_bounds(j as int);
                        assert(entry_of(mid_bytes, layout, j as int) =~= entry_of(
                            old_bytes,
                            layout,
                            j as int,
                        ));
                        assert forall|p: int| 0 <= p < layout.entry_size implies #[trigger] entry_of(
                            new_bytes,
                            layout,
                            j as int,
                        )[p] == entry_of(mid_bytes, layout, j as int)[p] by {
                            assert(new_bytes[layout.offset_of(j as int) + p] == mid_bytes[layout.offset_of(j as int) + p]);
                        }
                        assert(entry_of(new_bytes, layout, j as int) =~= entry_of(
                            mid_bytes,
                            layout,
                            j as int,
                        ));
                    }
                    assert forall|j: u32| j < layout.cap && j != idx.val implies slot_bit(
                        new_bytes,
                        j as int,
                    ) == slot_bit(old_bytes, j as int) by {
                        layout.lemma_bitmap_before_entries(j as int);
                        assert(mid_bytes[(j as int) / 8] == old_bytes[(j as int) / 8]);
                    }
                    assert(new_slots =~= old_slots.insert(idx.val, key.val));
                    assert(decoded_slots(new_bytes, layout) =~= new_slots);
                    self.lemma_wf();
                    Self::lemma_slot_holding(new_slots, key.val, idx.val);
                    assert forall|k: u32| #[trigger] self@.contains_key(k) implies self@[k]
                        == old_view.insert(key.val, val)[k] by {
                        if k != key.val {
                            let s = slot_holding(old_slots, k);
                            assert(old_slots.contains_key(s) && old_slots[s] == k);
                            Self::lemma_slot_holding(new_slots, k, s);
                        }
                    }
                    assert forall|k: u32| #[trigger] old_view.insert(key.val, val).contains_key(k) implies self@.contains_key(k) by {
                        if k != key.val {
                            let s = slot_holding(old_slots, k);
                            assert(old_slots.contains_key(s) && old_slots[s] == k);
                            assert(new_slots.contains_key(s) && new_slots[s] == k);
                            assert(holds_key(new_slots, k));
                        } else {
                            assert(new_slots.contains_key(idx.val) && new_slots[idx.val] == k);
                            assert(holds_key(new_slots, k));
                        }
                    }
                    assert(self@ =~= old_view.insert(key.val, val));
                }
                Ok(None)
            },
        }
    }

    /// Removes the entry with `key`: its slot becomes vacant and its bitmap
    /// bit is cleared. The entry's bytes are left as they are.
    pub fn delete(&mut self, key: Key) -> (r: Result<(), StoreError>)
        requires
            old(self).wf(),
        ensures
            final(self).wf(),
            final(self).spec_layout() == old(self).spec_layout(),
            match r {
                Ok(()) => {
                    &&& old(self)@.contains_key(key.val)
                    &&& final(self)@ == old(self)@.remove(key.val)
                    &&& final(self).slots() == old(self).slots().remove(
                        slot_holding(old(self).slots(), key.val),
                    )
                },
                Err(e) => {
                    &&& e == StoreError::KeyNotFound
                    &&& !old(self)@.contains_key(key.val)
                    &&& final(self)@ == old(self)@
                    &&& final(self).slots() == old(self).slots()
                },
            },
    {
        proof {
            self.lemma_wf();
        }
        let ghost old_bytes = self.bytes();
        let ghost old_slots = self.slots();
        let ghost old_view = self@;
        let layout = self.meta.layout();
        let (idx, _) = match self.meta.vacate(IdxOrKey::Key(key)) {
            Ok(found) => found,
            Err(e) => {
                return Err(e);
            },
        };
        proof {
            layout.lemma_bitmap_before_entries(idx.val as int);
            Self::lemma_slot_holding(old_slots, key.val, idx.val);
        }
        write_slot_bit(&mut self.data, idx.val as usize, false);
        proof {
            let new_bytes = self.bytes();
            let new_slots = self.slots();
            assert forall|j: u32| j < layout.cap implies entry_of(new_bytes, layout, j as int)
                == entry_of(old_bytes, layout, j as int) by {
                layout.lemma_offset_bounds(j as int);
                assert forall|p: int| 0 <= p < layout.entry_size implies #[trigger] entry_of(
                    new_bytes,
                    layout,
                    j as int,
                )[p] == entry_of(old_bytes, layout, j as int)[p] by {
                    assert(new_bytes[layout.offset_of(j as int) + p] == old_bytes[layout.offset_of(j as int) + p]);
                }
                assert(entry_of(new_bytes, layout, j as int) =~= entry_of(old_bytes, layout, j as int));
            }
            assert(decoded_slots(new_bytes, layout) =~= new_slots);
            self.lemma_wf();
            assert forall|k: u32| #[trigger] self@.contains_key(k) implies self@[k]
                == old_view.remove(key.val)[k] by {
                let s = slot_holding(new_slots, k);
                assert(new_slots.contains_key(s) && new_slots[s] == k);
                Self::lemma_slot_holding(old_slots, k, s);
            }
            assert forall|k: u32| #[trigger] old_view.remove(key.val).contains_key(k) implies self@.contains_key(k) by {
                let s = slot_holding(old_slots, k);
                assert(old_slots.contains_key(s) && old_slots[s] == k);
                assert(s != idx.val);
                assert(new_slots.contains_key(s) && new_slots[s] == k);
                assert(holds_key(new_slots, k));
            }
            assert(self@ =~= old_view.remove(key.val));
        }
        Ok(())
    }

    /// The stored keys, in slot order.
    pub fn keys(&self) -> (r: Vec<Key>)
        requires
            self.wf(),
        ensures
            r@.len() == self.slots().len(),
            forall|n: int| 0 <= n < r@.len() ==> self@.contains_key(#[trigger] r@[n].val),
            forall|k: u32|
                self@.contains_key(k) ==> exists|n: int| 0 <= n < r@.len() && #[trigger] r@[n].val == k,
            forall|a: int, b: int| 0 <= a < b < r@.len() ==> r@[a].val != r@[b].val,
    {
        proof {
            self.lemma_wf();
        }
        self.meta.keys()
    }
}

} // verus!
