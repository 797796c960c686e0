//! In-memory mirror of a page's occupancy: which slot holds which key.
use vstd::prelude::*;

use std::collections::{BTreeSet, HashMap};
use vstd::laws_cmp::obeys_cmp;
use vstd::set_lib::{lemma_len_subset, lemma_subset_equality, FiniteRange};
use vstd::std_specs::btree::{axiom_increasing_seq_meaning, increasing_seq};
use vstd::std_specs::cmp::OrdSpec;
use vstd::std_specs::iter::IteratorSpec;

use crate::page_entry::KEY_BYTES;
use crate::page_layout::{key_at, slot_bit, PageLayout, PAGE_SIZE};
use crate::{Idx, IdxOrKey, Key, StoreError};

verus! {

broadcast use vstd::std_specs::btree::group_btree_axioms, vstd::laws_cmp::group_laws_cmp,
    vstd::std_specs::hash::group_hash_axioms;

/// The smallest member of `set`, if any.
pub(crate) fn first_of(set: &BTreeSet<u32>) -> (r: Option<u32>)
    ensures
        match r {
            Some(i) => set@.contains(i) && forall|j: u32| set@.contains(j) ==> i <= j,
            None => set@.is_empty(),
        },
{
    let mut r: Option<u32> = None;
    for x in it: set.iter()
        invariant_except_break
            r is None,
            it.index() == 0,
            it.seq().unref().to_set() == set@,
        ensures
            match r {
                Some(i) => set@.contains(i) && forall|j: u32| set@.contains(j) ==> i <= j,
                None => forall|j: u32| !#[trigger] set@.contains(j),
            },
    {
        let ghost items = it.seq().unref();
        assert(x == items[0]);
        assert forall|j: u32| set@.contains(j) implies *x <= j by {
            assert(items.contains(j));
            let n = choose|n: int| 0 <= n < items.len() && items[n] == j;
            if n != 0 {
                assert(increasing_seq(it.seq()));
                assert(obeys_cmp::<u32>());
                assert(obeys_cmp::<&u32>());
                axiom_increasing_seq_meaning(it.seq());
                let a = it.seq()[0];
                let b = it.seq()[n];
                assert(OrdSpec::cmp_spec(&a, &b) is Less);
            }
        }
        r = Some(*x);
        break;
    }
    proof {
        if r is None {
            assert(set@ =~= Set::empty());
        }
    }
    r
}

/// Every slot below `cap` is in `dom`, or `dom` has fewer than `cap` members.
proof fn lemma_slot_count(dom: Set<u32>, cap: u32)
    requires
        dom.finite(),
        forall|i: u32| dom.contains(i) ==> i < cap,
    ensures
        dom.len() <= cap,
        dom.len() == cap <==> forall|i: u32| i < cap ==> dom.contains(i),
{
    let full = Set::<u32>::range(0, cap);
    <u32 as FiniteRange>::range_properties(0, cap);
    assert(dom.subset_of(full));
    lemma_len_subset(dom, full);
    if dom.len() == cap {
        lemma_subset_equality(dom, full);
    }
    if forall|i: u32| i < cap ==> dom.contains(i) {
        assert(dom =~= full);
    }
}

/// Whether some slot of `slots` holds `key`.
pub open spec fn holds_key(slots: Map<u32, u32>, key: u32) -> bool {
    exists|i: u32| slots.contains_key(i) && slots[i] == key
}

/// What the bytes of a page say about its slots: each occupied slot below
/// `n` and the key it holds.
pub open spec fn decoded_prefix(bytes: Seq<u8>, layout: PageLayout, n: int) -> Map<u32, u32> {
    Map::new(
        |i: u32| i < n && slot_bit(bytes, i as int),
        |i: u32| key_at(bytes, layout, i as int),
    )
}

/// What the bytes of a page say about all its slots.
pub open spec fn decoded_slots(bytes: Seq<u8>, layout: PageLayout) -> Map<u32, u32> {
    decoded_prefix(bytes, layout, layout.cap as int)
}

/// No two occupied slots of the page bytes hold the same key.
pub open spec fn keys_distinct(slots: Map<u32, u32>) -> bool {
    forall|i: u32, j: u32|
        #![trigger slots[i], slots[j]]
        slots.contains_key(i) && slots.contains_key(j) && slots[i] == slots[j] ==> i == j
}

/// The page's slots: which slot holds which key, with the reverse index and
/// the ordered set of vacant slots kept in step.
#[derive(Debug)]
pub struct PageMeta {
    layout: PageLayout,
    idx_to_key: HashMap<u32, u32>,
    key_to_idx: HashMap<u32, u32>,
    vacant_idx: BTreeSet<u32>,
}

impl View for PageMeta {
    type V = Map<u32, u32>;

    /// Slot index to the key it holds.
    closed spec fn view(&self) -> Map<u32, u32> {
        self.idx_to_key@
    }
}

impl PageMeta {
    pub closed spec fn spec_layout(&self) -> PageLayout {
        self.layout
    }

    pub open spec fn spec_cap(&self) -> nat {
        self.spec_layout().cap as nat
    }

    pub open spec fn spec_is_full(&self) -> bool {
        self@.len() == self.spec_cap()
    }

    pub closed spec fn wf(&self) -> bool {
        &&& self.layout.wf()
        &&& forall|i: u32| #[trigger]
            self.idx_to_key@.contains_key(i) ==> {
                &&& i < self.layout.cap
                &&& self.key_to_idx@.contains_key(self.idx_to_key@[i])
                &&& self.key_to_idx@[self.idx_to_key@[i]] == i
            }
        &&& forall|k: u32| #[trigger]
            self.key_to_idx@.contains_key(k) ==> {
                &&& self.idx_to_key@.contains_key(self.key_to_idx@[k])
                &&& self.idx_to_key@[self.key_to_idx@[k]] == k
            }
        &&& forall|i: u32| #[trigger]
            self.vacant_idx@.contains(i) <==> (i < self.layout.cap
                && !self.idx_to_key@.contains_key(i))
    }

    /// What holds of the slots of every well-formed page.
    pub proof fn lemma_wf(&self)
        requires
            self.wf(),
        ensures
            self.spec_layout().wf(),
            self@.dom().finite(),
            forall|i: u32| #[trigger] self@.contains_key(i) ==> i < self.spec_cap(),
            keys_distinct(self@),
            self@.len() <= self.spec_cap(),
            self.spec_is_full() <==> forall|i: u32|
                i < self.spec_cap() ==> #[trigger] self@.contains_key(i),
    {
        lemma_slot_count(self@.dom(), self.layout.cap as u32);
        assert forall|i: u32, j: u32|
            #![trigger self@[i], self@[j]]
            self@.contains_key(i) && self@.contains_key(j) && self@[i] == self@[j] implies i
            == j by {
            assert(self.key_to_idx@[self@[i]] == i);
        }
    }

    proof fn lemma_key_index(&self, key: u32)
        requires
            self.wf(),
        ensures
            self.key_to_idx@.contains_key(key) <==> holds_key(self@, key),
    {
        if holds_key(self@, key) {
            let i = choose|i: u32| self@.contains_key(i) && self@[i] == key;
            assert(self.idx_to_key@.contains_key(i));
        }
    }

    /// Metadata of a page whose slots are all vacant.
    pub fn new(layout: PageLayout) -> (r: Self)
        requires
            layout.wf(),
        ensures
            r.wf(),
            r.spec_layout() == layout,
            r@ == Map::<u32, u32>::empty(),
    {
        let cap = layout.cap;
        let idx_to_key: HashMap<u32, u32> = HashMap::with_capacity(cap);
        let key_to_idx: HashMap<u32, u32> = HashMap::with_capacity(cap);
        let mut vacant_idx: BTreeSet<u32> = BTreeSet::new();
        let mut n: usize = 0;
        while n < cap
            invariant
                n <= cap,
                cap == layout.cap,
                layout.wf(),
                forall|i: u32| #[trigger] vacant_idx@.contains(i) <==> i < n,
            decreases cap - n,
        {
            vacant_idx.insert(n as u32);
            n = n + 1;
        }
        PageMeta { layout, idx_to_key, key_to_idx, vacant_idx }
    }

    /// Reads the slots from the bytes of a page.
    pub fn parse(layout: PageLayout, bytes: &[u8]) -> (r: Result<Self, StoreError>)
        requires
            layout.wf(),
            layout.entry_size >= KEY_BYTES,
        ensures
            match r {
                Ok(meta) => {
                    &&& bytes@.len() == PAGE_SIZE
                    &&& keys_distinct(decoded_slots(bytes@, layout))
                    &&& meta.wf()
                    &&& meta.spec_layout() == layout
                    &&& meta@ == decoded_slots(bytes@, layout)
                },
                Err(e) => {
                    &&& e == StoreError::Corrupt
                    &&& (bytes@.len() != PAGE_SIZE || !keys_distinct(
                        decoded_slots(bytes@, layout),
                    ))
                },
            },
    {
        if bytes.len() != PAGE_SIZE {
            return Err(StoreError::Corrupt);
        }
        let cap = layout.cap;
        let mut idx_to_key: HashMap<u32, u32> = HashMap::with_capacity(cap);
        let mut key_to_idx: HashMap<u32, u32> = HashMap::with_capacity(cap);
        let mut vacant_idx: BTreeSet<u32> = BTreeSet::new();
        let mut it = layout.page_entry_iter(bytes);
        while it.step < cap
            invariant
                it.wf(),
                it.layout == layout,
                it.data@ == bytes@,
                cap == layout.cap,
                bytes@.len() == PAGE_SIZE,
                idx_to_key@ == decoded_prefix(bytes@, layout, it.step as int),
                forall|i: u32| #[trigger]
                    idx_to_key@.contains_key(i) ==> {
                        &&& key_to_idx@.contains_key(idx_to_key@[i])
                        &&& key_to_idx@[idx_to_key@[i]] == i
                    },
                forall|k: u32| #[trigger]
                    key_to_idx@.contains_key(k) ==> {
                        &&& idx_to_key@.contains_key(key_to_idx@[k])
                        &&& idx_to_key@[key_to_idx@[k]] == k
                    },
                forall|i: u32| #[trigger]
                    vacant_idx@.contains(i) <==> (i < it.step && !slot_bit(bytes@, i as int)),
            decreases cap - it.step,
        {
            let ghost step = it.step;
            match it.next() {
                Some((idx, Some(key))) => {
                    if key_to_idx.contains_key(&key.val) {
                        proof {
                            let j = key_to_idx@[key.val];
                            let full = decoded_slots(bytes@, layout);
                            assert(full.contains_key(j) && full[j] == key.val);
                            assert(full.contains_key(idx.val) && full[idx.val] == key.val);
                        }
                        return Err(StoreError::Corrupt);
                    }
                    idx_to_key.insert(idx.val, key.val);
                    key_to_idx.insert(key.val, idx.val);
                    assert(idx_to_key@ =~= decoded_prefix(bytes@, layout, it.step as int));
                },
                Some((idx, None)) => {
                    vacant_idx.insert(idx.val);
                    assert(idx_to_key@ =~= decoded_prefix(bytes@, layout, it.step as int));
                },
                None => {},
            }
        }
        let meta = PageMeta { layout, idx_to_key, key_to_idx, vacant_idx };
        proof {
            meta.lemma_wf();
        }
        Ok(meta)
    }

    /// Number of occupied slots.
    pub fn len(&self) -> (r: usize)
        requires
            self.wf(),
        ensures
            r == self@.len(),
    {
        self.idx_to_key.len()
    }

    /// Number of slots.
    pub fn capacity(&self) -> (r: usize)
        requires
            self.wf(),
        ensures
            r == self.spec_cap(),
    {
        self.layout.cap
    }

    pub fn layout(&self) -> (r: PageLayout)
        requires
            self.wf(),
        ensures
            r == self.spec_layout(),
    {
        self.layout
    }

    /// Whether every slot is occupied.
    pub fn is_full(&self) -> (r: bool)
        requires
            self.wf(),
        ensures
            r == self.spec_is_full(),
    {
        self.len() == self.layout.cap
    }

    /// Whether slot `idx` exists and holds no entry.
    pub fn is_idx_vacant(&self, idx: Idx) -> (r: bool)
        requires
            self.wf(),
        ensures
            r == (idx.val < self.spec_cap() && !self@.contains_key(idx.val)),
    {
        self.vacant_idx.contains(&idx.val)
    }

    /// Whether some slot holds `key`.
    pub fn has_key(&self, key: Key) -> (r: bool)
        requires
            self.wf(),
        ensures
            r == holds_key(self@, key.val),
    {
        proof {
            self.lemma_key_index(key.val);
        }
        self.key_to_idx.contains_key(&key.val)
    }

    /// The key held by slot `idx`.
    pub fn lookup_key(&self, idx: Idx) -> (r: Option<Key>)
        requires
            self.wf(),
        ensures
            match r {
                Some(k) => self@.contains_key(idx.val) && self@[idx.val] == k.val,
                None => !self@.contains_key(idx.val),
            },
    {
        match self.idx_to_key.get(&idx.val) {
            Some(k) => Some(Key::new(*k)),
            None => None,
        }
    }

    /// The slot holding `key`.
    pub fn lookup_idx(&self, key: Key) -> (r: Option<Idx>)
        requires
            self.wf(),
        ensures
            match r {
                Some(i) => self@.contains_key(i.val) && self@[i.val] == key.val,
                None => !holds_key(self@, key.val),
            },
    {
        proof {
            self.lemma_key_index(key.val);
        }
        match self.key_to_idx.get(&key.val) {
            Some(i) => Some(Idx::new(*i)),
            None => None,
        }
    }

    /// Empties a slot, named by its index or by its key; returns both.
    pub fn vacate(&mut self, idx_or_key: IdxOrKey) -> (r: Result<(Idx, Key), StoreError>)
        requires
            old(self).wf(),
        ensures
            final(self).wf(),
            final(self).spec_layout() == old(self).spec_layout(),
            match r {
                Ok((i, k)) => {
                    &&& old(self)@.contains_key(i.val)
                    &&& old(self)@[i.val] == k.val
                    &&& match idx_or_key {
                        IdxOrKey::Idx(want) => want == i,
                        IdxOrKey::Key(want) => want == k,
                    }
                    &&& final(self)@ == old(self)@.remove(i.val)
                },
                Err(e) => {
                    &&& final(self)@ == old(self)@
                    &&& match idx_or_key {
                        IdxOrKey::Idx(want) => e == StoreError::SlotVacant && !old(
                            self,
                        )@.contains_key(want.val),
                        IdxOrKey::Key(want) => e == StoreError::KeyNotFound && !holds_key(
                            old(self)@,
                            want.val,
                        ),
                    }
                },
            },
    {
        proof {
            self.lemma_wf();
        }
        let (idx, key) = match idx_or_key {
            IdxOrKey::Idx(idx) => {
                match self.idx_to_key.get(&idx.val) {
                    Some(k) => (idx.val, *k),
                    None => {
                        return Err(StoreError::SlotVacant);
                    },
                }
            },
            IdxOrKey::Key(key) => {
                proof {
                    self.lemma_key_index(key.val);
                }
                match self.key_to_idx.get(&key.val) {
                    Some(i) => (*i, key.val),
                    None => {
                        return Err(StoreError::KeyNotFound);
                    },
                }
            },
        };
        let ghost prior = *self;
        self.idx_to_key.remove(&idx);
        self.key_to_idx.remove(&key);
        self.vacant_idx.insert(idx);
        proof {
            assert(self@ =~= prior@.remove(idx));
            assert forall|k: u32| #[trigger] self.key_to_idx@.contains_key(k) implies {
                &&& self.idx_to_key@.contains_key(self.key_to_idx@[k])
                &&& self.idx_to_key@[self.key_to_idx@[k]] == k
            } by {
                assert(prior.key_to_idx@.contains_key(k));
            }
        }
        Ok((Idx::new(idx), Key::new(key)))
    }

    /// Fills vacant slot `idx` with `key`, which no slot holds.
    fn insert_idx_and_key_unchecked(&mut self, idx: u32, key: u32)
        requires
            old(self).wf(),
            idx < old(self).spec_cap(),
            !old(self)@.contains_key(idx),
            !holds_key(old(self)@, key),
        ensures
            final(self).wf(),
            final(self).spec_layout() == old(self).spec_layout(),
            final(self)@ == old(self)@.insert(idx, key),
    {
        proof {
            self.lemma_key_index(key);
        }
        let ghost prior = *self;
        self.idx_to_key.insert(idx, key);
        self.key_to_idx.insert(key, idx);
        self.vacant_idx.remove(&idx);
        proof {
            assert forall|i: u32| #[trigger] self.idx_to_key@.contains_key(i) implies {
                &&& i < self.layout.cap
                &&& self.key_to_idx@.contains_key(self.idx_to_key@[i])
                &&& self.key_to_idx@[self.idx_to_key@[i]] == i
            } by {
                if i != idx {
                    assert(prior.idx_to_key@.contains_key(i));
                }
            }
        }
    }

    /// Fills slot `idx` with `key`.
    pub fn insert_idx_and_key(&mut self, idx: Idx, key: Key) -> (r: Result<(), StoreError>)
        requires
            old(self).wf(),
        ensures
            final(self).wf(),
            final(self).spec_layout() == old(self).spec_layout(),
            match r {
                Ok(()) => {
                    &&& idx.val < old(self).spec_cap()
                    &&& !old(self)@.contains_key(idx.val)
                    &&& !holds_key(old(self)@, key.val)
                    &&& final(self)@ == old(self)@.insert(idx.val, key.val)
                },
                Err(e) => {
                    &&& final(self)@ == old(self)@
                    &&& (e == StoreError::SlotOccupied || e == StoreError::KeyExists)
                    &&& (e == StoreError::SlotOccupied <==> !(idx.val < old(self).spec_cap()
                        && !old(self)@.contains_key(idx.val)))
                    &&& (e == StoreError::KeyExists <==> (idx.val < old(self).spec_cap()
                        && !old(self)@.contains_key(idx.val) && holds_key(old(self)@, key.val)))
                },
            },
    {
        if !self.is_idx_vacant(idx) {
            return Err(StoreError::SlotOccupied);
        }
        if self.has_key(key) {
            return Err(StoreError::KeyExists);
        }
        self.insert_idx_and_key_unchecked(idx.val, key.val);
        Ok(())
    }

    /// Puts `key` in the smallest vacant slot and returns that slot.
    pub fn insert_key(&mut self, key: Key) -> (r: Result<Idx, StoreError>)
        requires
            old(self).wf(),
        ensures
            final(self).wf(),
            final(self).spec_layout() == old(self).spec_layout(),
            match r {
                Ok(i) => {
                    &&& !holds_key(old(self)@, key.val)
                    &&& i.val < old(self).spec_cap()
                    &&& !old(self)@.contains_key(i.val)
                    &&& forall|j: u32| j < i.val ==> #[trigger] old(self)@.contains_key(j)
                    &&& final(self)@ == old(self)@.insert(i.val, key.val)
                },
                Err(e) => {
                    &&& final(self)@ == old(self)@
                    &&& (e == StoreError::KeyExists || e == StoreError::PageFull)
                    &&& (e == StoreError::KeyExists <==> holds_key(old(self)@, key.val))
                    &&& (e == StoreError::PageFull <==> (!holds_key(old(self)@, key.val)
                        && old(self).spec_is_full()))
                },
            },
    {
        proof {
            self.lemma_wf();
        }
        if self.has_key(key) {
            return Err(StoreError::KeyExists);
        }
        let idx = match first_of(&self.vacant_idx) {
            Some(i) => i,
            None => {
                proof {
                    assert forall|i: u32| i < self.spec_cap() implies #[trigger] self@.contains_key(
                        i,
                    ) by {
                        assert(!self.vacant_idx@.contains(i));
                    }
                }
                return Err(StoreError::PageFull);
            },
        };
        proof {
            assert(!self.spec_is_full()) by {
                assert(!self@.contains_key(idx));
            }
            assert forall|j: u32| j < idx implies #[trigger] self@.contains_key(j) by {
                if !self@.contains_key(j) {
                    assert(self.vacant_idx@.contains(j));
                }
            }
        }
        self.insert_idx_and_key_unchecked(idx, key.val);
        Ok(Idx::new(idx))
    }

    /// Makes occupied slot `idx` hold `key` instead; returns the key it held.
    pub fn replace_key(&mut self, idx: Idx, key: Key) -> (r: Result<Key, StoreError>)
        requires
            old(self).wf(),
        ensures
            final(self).wf(),
            final(self).spec_layout() == old(self).spec_layout(),
            match r {
                Ok(k) => {
                    &&& old(self)@.contains_key(idx.val)
                    &&& old(self)@[idx.val] == k.val
                    &&& final(self)@ == old(self)@.insert(idx.val, key.val)
                },
                Err(e) => {
                    &&& final(self)@ == old(self)@
                    &&& (e == StoreError::SlotVacant || e == StoreError::KeyExists)
                    &&& (e == StoreError::SlotVacant <==> !old(self)@.contains_key(idx.val))
                    &&& (e == StoreError::KeyExists <==> (old(self)@.contains_key(idx.val)
                        && old(self)@[idx.val] != key.val && holds_key(old(self)@, key.val)))
                },
            },
    {
        let old_key = match self.idx_to_key.get(&idx.val) {
            Some(k) => *k,
            None => {
                return Err(StoreError::SlotVacant);
            },
        };
        if old_key == key.val {
            return Ok(key);
        }
        if self.has_key(key) {
            return Err(StoreError::KeyExists);
        }
        let ghost prior = *self;
        self.idx_to_key.insert(idx.val, key.val);
        self.key_to_idx.remove(&old_key);
        self.key_to_idx.insert(key.val, idx.val);
        proof {
            assert forall|i: u32| #[trigger] self.idx_to_key@.contains_key(i) implies {
                &&& i < self.layout.cap
                &&& self.key_to_idx@.contains_key(self.idx_to_key@[i])
                &&& self.key_to_idx@[self.idx_to_key@[i]] == i
            } by {
                if i != idx.val {
                    assert(prior.idx_to_key@.contains_key(i));
                    assert(prior.idx_to_key@[i] != old_key);
                }
            }
            assert forall|k: u32| #[trigger] self.key_to_idx@.contains_key(k) implies {
                &&& self.idx_to_key@.contains_key(self.key_to_idx@[k])
                &&& self.idx_to_key@[self.key_to_idx@[k]] == k
            } by {
                if k != key.val {
                    assert(prior.key_to_idx@.contains_key(k));
                }
            }
        }
        Ok(Key::new(old_key))
    }

    /// The keys held, in slot order.
    pub fn keys(&self) -> (r: Vec<Key>)
        requires
            self.wf(),
        ensures
            r@.len() == self@.len(),
            forall|n: int| 0 <= n < r@.len() ==> holds_key(self@, #[trigger] r@[n].val),
            forall|k: u32| holds_key(self@, k) ==> exists|n: int| 0 <= n < r@.len() && #[trigger] r@[n].val == k,
            forall|a: int, b: int| 0 <= a < b < r@.len() ==> r@[a].val != r@[b].val,
    {
        proof {
            self.lemma_wf();
        }
        let cap = self.layout.cap;
        let mut r: Vec<Key> = Vec::new();
        let mut n: usize = 0;
        let ghost mut seen = Set::<u32>::empty();
        let ghost mut src = Seq::<u32>::empty();
        while n < cap
            invariant
                self.wf(),
                cap == self.spec_cap(),
                n <= cap,
                seen == Set::new(|i: u32| i < n && self@.contains_key(i)),
                seen.finite(),
                r@.len() == seen.len(),
                src.len() == r@.len(),
                forall|i: int|
                    0 <= i < r@.len() ==> {
                        &&& #[trigger] src[i] < n
                        &&& self@.contains_key(src[i])
                        &&& r@[i].val == self@[src[i]]
                    },
                forall|s: u32|
                    s < n && self@.contains_key(s) ==> exists|i: int|
                        0 <= i < r@.len() && #[trigger] r@[i].val == self@[s],
                forall|a: int, b: int| 0 <= a < b < r@.len() ==> r@[a].val != r@[b].val,
            decreases cap - n,
        {
            match self.idx_to_key.get(&(n as u32)) {
                Some(k) => {
                    let ghost old_r = r@;
                    proof {
                        assert forall|i: int| 0 <= i < old_r.len() implies old_r[i].val != *k by {
                            assert(src[i] < n);
                        }
                    }
                    r.push(Key::new(*k));
                    proof {
                        assert(Set::new(|i: u32| i < n + 1 && self@.contains_key(i)) =~= seen.insert(
                            n as u32,
                        ));
                        seen = seen.insert(n as u32);
                        src = src.push(n as u32);
                        assert forall|t: u32| t < n + 1 && self@.contains_key(t) implies exists|i: int|
                            0 <= i < r@.len() && #[trigger] r@[i].val == self@[t] by {
                            if t == n as u32 {
                                assert(r@[old_r.len() as int].val == self@[t]);
                            } else {
                                let i = choose|i: int| 0 <= i < old_r.len() && #[trigger] old_r[i].val == self@[t];
                                assert(r@[i] == old_r[i]);
                            }
                        }
                    }
                },
                None => {
                    proof {
                        assert(Set::new(|i: u32| i < n + 1 && self@.contains_key(i)) =~= seen);
                    }
                },
            }
            n = n + 1;
        }
        proof {
            assert(seen =~= self@.dom());
            assert forall|k: u32| holds_key(self@, k) implies exists|n: int|
                0 <= n < r@.len() && #[trigger] r@[n].val == k by {
                let s = choose|s: u32| self@.contains_key(s) && self@[s] == k;
                assert(s < cap);
            }
            assert forall|i: int| 0 <= i < r@.len() implies holds_key(self@, #[trigger] r@[i].val) by {
                assert(src[i] < n);
            }
        }
        r
    }
}

} // verus!
