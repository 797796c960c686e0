//! Byte layout of a page: an occupancy bitmap followed by a packed entry array.
use vstd::prelude::*;

use crate::page_entry::{EntryValue, KEY_BYTES};
use crate::{Idx, Key};

verus! {

/// Bytes in one page.
pub const PAGE_SIZE: usize = 128;

/// Bytes of bitmap needed for `cap` slots, one bit per slot.
pub open spec fn bitmap_len(cap: int) -> int {
    (cap + 7) / 8
}

/// `b` rounded up to the next multiple of `a`.
pub open spec fn round_up(b: int, a: int) -> int {
    if b % a == 0 {
        b
    } else {
        b + (a - b % a)
    }
}

/// Bytes taken by a page of `cap` slots: bitmap, padding up to the entry
/// alignment, then `cap` entries of `size` bytes.
pub open spec fn footprint(cap: int, size: int, align: int) -> int {
    round_up(bitmap_len(cap), align) + cap * size
}

/// Whether a page of `cap` slots fits in `PAGE_SIZE` bytes.
pub open spec fn fits(cap: int, size: int, align: int) -> bool {
    footprint(cap, size, align) <= PAGE_SIZE
}

/// Whether slot `n` is marked occupied: bit `n % 8` (least significant first)
/// of byte `n / 8`.
pub open spec fn slot_bit(bytes: Seq<u8>, n: int) -> bool {
    (bytes[n / 8] >> ((n % 8) as u8)) & 1u8 == 1u8
}

/// The page geometry for entries of a given size and alignment.
#[derive(Clone, Copy, Debug, PartialEq, Eq, Structural)]
pub struct PageLayout {
    pub cap: usize,
    pub entry_size: usize,
    pub entry_align: usize,
    pub total_usage: usize,
    pub bitmap_bytes: usize,
    pub array_start: usize,
    pub wasted_bytes: usize,
}

impl PageLayout {
    pub open spec fn wf(&self) -> bool {
        &&& self.entry_size >= 1
        &&& self.entry_align >= 1
        &&& self.cap <= PAGE_SIZE
        &&& self.bitmap_bytes == bitmap_len(self.cap as int)
        &&& self.array_start == round_up(self.bitmap_bytes as int, self.entry_align as int)
        &&& self.total_usage == self.array_start + self.cap * self.entry_size
        &&& self.total_usage <= PAGE_SIZE
        &&& self.wasted_bytes == PAGE_SIZE - self.total_usage
        &&& forall|c: int|
            c > self.cap ==> !#[trigger] fits(c, self.entry_size as int, self.entry_align as int)
    }

    /// Byte offset of the entry in slot `n`.
    pub open spec fn offset_of(&self, n: int) -> int {
        self.array_start + n * self.entry_size
    }

    /// Computes the largest capacity whose bitmap and entry array fit in a page.
    pub fn new(entry_size: usize, entry_align: usize) -> (r: Self)
        requires
            entry_size >= 1,
            entry_align >= 1,
        ensures
            r.wf(),
            r.entry_size == entry_size,
            r.entry_align == entry_align,
            fits(r.cap as int, entry_size as int, entry_align as int),
            !fits(r.cap + 1, entry_size as int, entry_align as int),
    {
        let size = entry_size;
        let align = entry_align;
        let mut cap: usize = (PAGE_SIZE - 1) / size;
        proof {
            let c0 = cap as int;
            assert(c0 * size <= PAGE_SIZE - 1 && (c0 + 1) * size > PAGE_SIZE - 1 && c0 <= PAGE_SIZE)
                by (nonlinear_arith)
                requires
                    c0 == (PAGE_SIZE - 1) / (size as int),
                    size >= 1,
            ;
            assert forall|c: int| c > c0 implies !#[trigger] fits(c, size as int, align as int) by {
                assert(c * size >= (c0 + 1) * size) by (nonlinear_arith)
                    requires
                        c >= c0 + 1,
                        size >= 1,
                ;
                assert(bitmap_len(c) >= 1);
            }
        }
        loop
            invariant
                size == entry_size,
                align == entry_align,
                size >= 1,
                align >= 1,
                cap <= PAGE_SIZE,
                cap * size <= PAGE_SIZE - 1,
                forall|c: int| c > cap ==> !#[trigger] fits(c, size as int, align as int),
            decreases cap,
        {
            let bitmap_bytes = (cap + 7) / 8;
            let rem = bitmap_bytes % align;
            let pad = if rem == 0 {
                0
            } else {
                align - rem
            };
            if pad <= PAGE_SIZE - bitmap_bytes {
                let array_start = bitmap_bytes + pad;
                let total_usage = array_start + cap * size;
                if total_usage <= PAGE_SIZE {
                    return PageLayout {
                        cap,
                        entry_size,
                        entry_align,
                        total_usage,
                        bitmap_bytes,
                        array_start,
                        wasted_bytes: PAGE_SIZE - total_usage,
                    };
                }
            }
            assert(!fits(cap as int, size as int, align as int));
            assert(cap > 0) by {
                if cap == 0 {
                    assert(bitmap_bytes == 0);
                    assert(0int % (align as int) == 0) by (nonlinear_arith)
                        requires
                            align >= 1,
                    ;
                    assert(cap * size == 0) by (nonlinear_arith)
                        requires
                            cap == 0,
                    ;
                }
            }
            proof {
                assert((cap - 1) * size <= cap * size) by (nonlinear_arith)
                    requires
                        cap >= 1,
                        size >= 1,
                ;
            }
            cap = cap - 1;
        }
    }

    /// Byte offset of the entry in slot `n`.
    pub fn entry_offset(&self, n: usize) -> (r: usize)
        requires
            self.wf(),
            n < self.cap,
        ensures
            r == self.offset_of(n as int),
            r + self.entry_size <= self.total_usage,
    {
        proof {
            self.lemma_offset_bounds(n as int);
        }
        self.array_start + n * self.entry_size
    }

    /// The entry of every slot lies inside the used part of the page.
    pub proof fn lemma_offset_bounds(&self, n: int)
        requires
            self.wf(),
            0 <= n < self.cap,
        ensures
            self.array_start <= self.offset_of(n),
            self.offset_of(n) + self.entry_size <= self.total_usage,
    {
        let s = self.entry_size as int;
        let c = self.cap as int;
        assert(0 <= n * s && n * s + s <= c * s) by (nonlinear_arith)
            requires
                0 <= n < c,
                s >= 1,
        ;
    }

    /// The bitmap lies before the entry array.
    pub proof fn lemma_bitmap_before_entries(&self, n: int)
        requires
            self.wf(),
            0 <= n < self.cap,
        ensures
            n / 8 < self.bitmap_bytes,
            self.bitmap_bytes <= self.array_start,
    {
    }

    /// Whether slot `n` is marked vacant in the bitmap of `bytes`.
    pub fn nth_is_vacant(&self, bytes: &[u8], n: usize) -> (r: bool)
        requires
            self.wf(),
            n < self.cap,
            bytes@.len() >= self.total_usage,
        ensures
            r == !slot_bit(bytes@, n as int),
    {
        proof {
            self.lemma_bitmap_before_entries(n as int);
            self.lemma_offset_bounds(n as int);
        }
        (bytes[n / 8] >> ((n % 8) as u8)) & 1u8 != 1u8
    }

    /// Walks the slots of `bytes` in ascending order.
    pub fn page_entry_iter<'a>(&self, bytes: &'a [u8]) -> (r: PageEntryIter<'a>)
        requires
            self.wf(),
            self.entry_size >= KEY_BYTES,
            bytes@.len() >= self.total_usage,
        ensures
            r.wf(),
            r.layout == *self,
            r.data@ == bytes@,
            r.step == 0,
    {
        PageEntryIter::new(bytes, *self)
    }
}

/// The bytes of the entry in slot `n`.
pub open spec fn entry_of(bytes: Seq<u8>, layout: PageLayout, n: int) -> Seq<u8> {
    bytes.subrange(layout.offset_of(n), layout.offset_of(n) + layout.entry_size)
}

/// The key stored in the entry of slot `n`.
pub open spec fn key_at(bytes: Seq<u8>, layout: PageLayout, n: int) -> u32 {
    <u32 as EntryValue>::from_bytes(entry_of(bytes, layout, n).subrange(0, KEY_BYTES as int))
}

/// Two layouts for the same entry size and alignment have the same capacity.
pub proof fn lemma_layout_unique(a: PageLayout, b: PageLayout)
    requires
        a.wf(),
        b.wf(),
        a.entry_size == b.entry_size,
        a.entry_align == b.entry_align,
    ensures
        a.cap == b.cap,
{
    let (s, al) = (a.entry_size as int, a.entry_align as int);
    if a.cap < b.cap {
        assert(fits(b.cap as int, s, al));
    }
    if b.cap < a.cap {
        assert(fits(a.cap as int, s, al));
    }
}

/// What the bytes of a page say slot `n` holds: its key, or nothing.
pub open spec fn slot_state(bytes: Seq<u8>, layout: PageLayout, n: int) -> Option<u32> {
    if slot_bit(bytes, n) {
        Some(key_at(bytes, layout, n))
    } else {
        None
    }
}

/// Reads the slots of a page in ascending order, yielding each slot's
/// index and the key it holds, if any.
pub struct PageEntryIter<'a> {
    pub data: &'a [u8],
    pub step: usize,
    pub layout: PageLayout,
}

impl<'a> PageEntryIter<'a> {
    pub open spec fn wf(&self) -> bool {
        &&& self.layout.wf()
        &&& self.layout.entry_size >= KEY_BYTES
        &&& self.data@.len() >= self.layout.total_usage
        &&& self.step <= self.layout.cap
    }

    pub fn new(data: &'a [u8], layout: PageLayout) -> (r: Self)
        requires
            layout.wf(),
            layout.entry_size >= KEY_BYTES,
            data@.len() >= layout.total_usage,
        ensures
            r.wf(),
            r.layout == layout,
            r.data@ == data@,
            r.step == 0,
    {
        PageEntryIter { data, step: 0, layout }
    }

    /// The next slot and its key, or `None` once every slot has been read.
    pub fn next(&mut self) -> (r: Option<(Idx, Option<Key>)>)
        requires
            old(self).wf(),
        ensures
            final(self).wf(),
            final(self).data@ == old(self).data@,
            final(self).layout == old(self).layout,
            old(self).step < old(self).layout.cap ==> {
                &&& final(self).step == old(self).step + 1
                &&& r matches Some((i, k)) && i.val == old(self).step && match k {
                    Some(key) => slot_state(old(self).data@, old(self).layout, old(self).step as int)
                        == Some(key.val),
                    None => slot_state(old(self).data@, old(self).layout, old(self).step as int)
                        == None::<u32>,
                }
            },
            old(self).step >= old(self).layout.cap ==> r is None && final(self).step == old(self).step,
    {
        if self.step >= self.layout.cap {
            return None;
        }
        let step = self.step;
        self.step = step + 1;
        let idx = Idx::new(step as u32);
        if self.layout.nth_is_vacant(self.data, step) {
            Some((idx, None))
        } else {
            let off = self.layout.entry_offset(step);
            let key = <u32 as EntryValue>::decode(self.data, off);
            assert(entry_of(self.data@, self.layout, step as int).subrange(0, KEY_BYTES as int)
                =~= self.data@.subrange(off as int, off + KEY_BYTES));
            Some((idx, Some(Key::new(key))))
        }
    }
}

} // verus!
