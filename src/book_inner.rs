//! A book: the pages of one collection, a key-to-page index, and the ordered
//! set of pages that still have a vacant slot.
use vstd::prelude::*;

use std::collections::{BTreeSet, HashMap};

use crate::page_entry::EntryValue;
use crate::page_inner::{cap_for, PageInner};
use crate::page_meta::first_of;
use crate::{BookId, Idx, Key, StoreError};

verus! {

broadcast use vstd::std_specs::btree::group_btree_axioms, vstd::laws_cmp::group_laws_cmp,
    vstd::std_specs::hash::group_hash_axioms;

/// Key to value over all pages, for the keys that `lookup` places.
pub open spec fn book_contents<V>(lookup: Map<u32, u32>, pages: Seq<Map<u32, V>>) -> Map<u32, V> {
    Map::new(|k: u32| lookup.contains_key(k), |k: u32| pages[lookup[k] as int][k])
}

/// `lookup` places each key of each page at that page, and nothing else.
pub open spec fn indexes_pages<V>(lookup: Map<u32, u32>, pages: Seq<Map<u32, V>>) -> bool {
    &&& forall|k: u32| #[trigger]
        lookup.contains_key(k) ==> lookup[k] < pages.len() && pages[lookup[k] as int].contains_key(
            k,
        )
    &&& forall|p: int, k: u32|
        0 <= p < pages.len() && #[trigger] pages[p].contains_key(k) ==> lookup.contains_key(k)
            && lookup[k] == p
}

/// The index of the first page of `fill` with fewer than `cap` keys.
pub open spec fn first_with_room(fill: Seq<nat>, cap: nat) -> int {
    choose|p: int|
        0 <= p < fill.len() && fill[p] < cap && forall|q: int| 0 <= q < p ==> fill[q] >= cap
}

/// Keys per page after one insert of a new key: the first page with room
/// gains one; when every page is at `cap`, a new page starts with one.
pub open spec fn fill_after_insert(fill: Seq<nat>, cap: nat) -> Seq<nat> {
    if exists|p: int| 0 <= p < fill.len() && fill[p] < cap {
        let p = first_with_room(fill, cap);
        fill.update(p, fill[p] + 1)
    } else {
        fill.push(1)
    }
}

/// Keys per page after `n` inserts of distinct keys into a book that starts
/// with one empty page.
pub open spec fn fill_after(n: nat, cap: nat) -> Seq<nat>
    decreases n,
{
    if n == 0 {
        seq![0nat]
    } else {
        fill_after_insert(fill_after((n - 1) as nat, cap), cap)
    }
}

proof fn lemma_first_with_room(fill: Seq<nat>, cap: nat, p: int)
    requires
        0 <= p < fill.len(),
        fill[p] < cap,
        forall|q: int| 0 <= q < p ==> fill[q] >= cap,
    ensures
        first_with_room(fill, cap) == p,
{
    let c = first_with_room(fill, cap);
    assert(0 <= c < fill.len() && fill[c] < cap && forall|q: int| 0 <= q < c ==> fill[q] >= cap);
    if c < p {
        assert(fill[c] >= cap);
    }
    if p < c {
        assert(fill[p] >= cap);
    }
}

/// A book starting with one empty page, after `cap + 1` inserts of distinct
/// keys, has exactly two pages: the first full, the second holding one key.
pub proof fn lemma_overflow_opens_second_page(cap: nat)
    requires
        cap >= 1,
    ensures
        fill_after(cap + 1, cap) == seq![cap, 1nat],
        fill_after(cap + 1, cap).len() == 2,
        fill_after(cap + 1, cap)[0] == cap,
{
    lemma_fill_one_page(cap, cap);
    let f = fill_after(cap, cap);
    assert(!exists|p: int| 0 <= p < f.len() && f[p] < cap);
    assert(fill_after(cap + 1, cap) =~= seq![cap, 1nat]);
}

/// When every page is full, adding an empty page and then inserting fills
/// the pages as one insert does in `fill_after_insert`: the new page holds
/// the key.
pub proof fn lemma_grow_then_insert(fill: Seq<nat>, cap: nat)
    requires
        cap >= 1,
        forall|p: int| 0 <= p < fill.len() ==> fill[p] >= cap,
    ensures
        fill_after_insert(fill.push(0), cap) == fill_after_insert(fill, cap),
{
    let g = fill.push(0);
    let n = fill.len() as int;
    assert(g[n] < cap);
    lemma_first_with_room(g, cap, n);
    assert(!exists|p: int| 0 <= p < fill.len() && fill[p] < cap);
    assert(fill_after_insert(g, cap) =~= fill.push(1));
}

/// Up to `cap` inserts of distinct keys all go to the first page.
proof fn lemma_fill_one_page(n: nat, cap: nat)
    requires
        n <= cap,
    ensures
        fill_after(n, cap) == seq![n],
    decreases n,
{
    if n > 0 {
        lemma_fill_one_page((n - 1) as nat, cap);
        let f = fill_after((n - 1) as nat, cap);
        lemma_first_with_room(f, cap, 0);
        assert(f[0] == n - 1 && f.len() == 1);
        assert(exists|p: int| 0 <= p < f.len() && f[p] < cap);
        assert(fill_after(n, cap) == f.update(0, f[0] + 1));
        assert(fill_after(n, cap) =~= seq![n]);
    }
}

/// The pages of one book, indexed by key, with the pages that have room.
#[derive(Debug)]
pub struct BookInner<V> {
    id: BookId,
    pages: Vec<PageInner<V>>,
    key_lookup: HashMap<u32, u32>,
    partial: BTreeSet<u32>,
}

impl<V: EntryValue> View for BookInner<V> {
    type V = Map<u32, V>;

    /// Key to value over the whole book.
    open spec fn view(&self) -> Map<u32, V> {
        book_contents(self.lookup(), self.pages_view())
    }
}

impl<V: EntryValue> BookInner<V> {
    pub closed spec fn spec_id(&self) -> BookId {
        self.id
    }

    /// The contents of each page, by page index.
    pub closed spec fn pages_view(&self) -> Seq<Map<u32, V>> {
        self.pages@.map_values(|p: PageInner<V>| p@)
    }

    /// Whether page `p` has no vacant slot.
    pub closed spec fn page_full(&self, p: int) -> bool {
        self.pages@[p].spec_is_full()
    }

    /// Key to the index of the page holding it.
    pub closed spec fn lookup(&self) -> Map<u32, u32> {
        self.key_lookup@
    }

    /// Number of keys each page holds, by page index.
    pub closed spec fn fill(&self) -> Seq<nat> {
        self.pages@.map_values(|p: PageInner<V>| p.slots().len())
    }

    /// Indices of the pages with a vacant slot.
    pub closed spec fn partial_view(&self) -> Set<u32> {
        self.partial@
    }

    pub closed spec fn wf(&self) -> bool {
        &&& self.pages@.len() <= u32::MAX
        &&& forall|p: int| 0 <= p < self.pages@.len() ==> #[trigger] self.pages@[p].wf()
        &&& indexes_pages(self.key_lookup@, self.pages_view())
        &&& forall|p: u32| #[trigger]
            self.partial@.contains(p) <==> (p < self.pages@.len() && !self.pages@[p as int].spec_is_full())
    }

    /// What holds of every well-formed book.
    pub proof fn lemma_wf(&self)
        requires
            self.wf(),
        ensures
            self.pages_view().len() <= u32::MAX,
            indexes_pages(self.lookup(), self.pages_view()),
            self.lookup().dom().finite(),
            forall|p: u32| #[trigger]
                self.partial_view().contains(p) <==> (p < self.pages_view().len() && !self.page_full(p as int)),
            forall|k: u32| #[trigger] self@.contains_key(k) <==> self.lookup().contains_key(k),
    {
    }

    /// A book over `pages`, page `i` at index `i`. Fails with `Corrupt` when two
    /// pages hold the same key.
    pub fn new(id: BookId, pages: Vec<PageInner<V>>) -> (r: Result<Self, StoreError>)
        requires
            pages@.len() <= u32::MAX,
            forall|p: int| 0 <= p < pages@.len() ==> #[trigger] pages@[p].wf(),
        ensures
            match r {
                Ok(book) => {
                    &&& book.wf()
                    &&& book.spec_id() == id
                    &&& book.pages_view() == pages@.map_values(|p: PageInner<V>| p@)
                    &&& book.fill() == pages@.map_values(|p: PageInner<V>| p.slots().len())
                    &&& forall|p: int, q: int, k: u32|
                        0 <= p < q < pages@.len() ==> !(#[trigger] pages@[p]@.contains_key(k)
                            && #[trigger] pages@[q]@.contains_key(k))
                },
                Err(e) => {
                    &&& e == StoreError::Corrupt
                    &&& exists|p: int, q: int, k: u32|
                        0 <= p < q < pages@.len() && #[trigger] pages@[p]@.contains_key(k)
                            && #[trigger] pages@[q]@.contains_key(k)
                },
            },
    {
        let mut book = BookInner {
            id,
            pages: Vec::new(),
            key_lookup: HashMap::new(),
            partial: BTreeSet::new(),
        };
        let ghost all = pages@;
        let mut rest = pages;
        let n = rest.len();
        assert(book.pages_view() =~= all.subrange(0, 0).map_values(|p: PageInner<V>| p@));
        assert(book.fill() =~= all.subrange(0, 0).map_values(|p: PageInner<V>| p.slots().len()));
        while rest.len() > 0
            invariant
                book.wf(),
                book.spec_id() == id,
                n == all.len(),
                all == pages@,
                n <= u32::MAX,
                forall|p: int| 0 <= p < all.len() ==> #[trigger] all[p].wf(),
                rest@.len() <= n,
                rest@ == all.subrange(n - rest@.len(), n as int),
                book.pages_view() == all.subrange(0, n - rest@.len()).map_values(
                    |p: PageInner<V>| p@,
                ),
                book.fill() == all.subrange(0, n - rest@.len()).map_values(
                    |p: PageInner<V>| p.slots().len(),
                ),
                forall|p: int, q: int, k: u32|
                    0 <= p < q < n - rest@.len() ==> !(#[trigger] all[p]@.contains_key(k)
                        && #[trigger] all[q]@.contains_key(k)),
            decreases rest@.len(),
        {
            let ghost done = (n - rest@.len()) as int;
            let page = rest.remove(0);
            assert(rest@ =~= all.subrange(n - rest@.len(), n as int));
            assert(page == all[done]);
            let ghost before = book.pages_view();
            match book.add_page(page) {
                Ok(_) => {
                    proof {
                        assert(book.pages_view() =~= all.subrange(0, done + 1).map_values(
                            |p: PageInner<V>| p@,
                        ));
                        assert(book.fill() =~= all.subrange(0, done + 1).map_values(
                            |p: PageInner<V>| p.slots().len(),
                        ));
                        assert forall|p: int, q: int, k: u32|
                            0 <= p < q < done + 1 implies !(#[trigger] all[p]@.contains_key(k)
                            && #[trigger] all[q]@.contains_key(k)) by {
                            if q == done && all[p]@.contains_key(k) {
                                assert(before[p].contains_key(k));
                            }
                        }
                    }
                },
                Err(e) => {
                    proof {
                        assert(e == StoreError::Corrupt);
                        let k = choose|k: u32| #[trigger] all[done]@.contains_key(k) && book@.contains_key(k);
                        book.lemma_wf();
                        let p0 = book.lookup()[k] as int;
                        assert(before[p0].contains_key(k));
                        assert(all[p0]@.contains_key(k));
                        assert(before.len() == done);
                        assert(0 <= p0 < done);
                        assert(done < all.len());
                        assert(all == pages@);
                    }
                    return Err(e);
                },
            }
        }
        assert(all.subrange(0, n as int) =~= all);
        Ok(book)
    }

    /// Appends `page` as the book's next page. Fails with `Corrupt` when a key
    /// of `page` is already in the book, and with `PageFull` when no index is
    /// left for another page.
    pub fn add_page(&mut self, page: PageInner<V>) -> (r: Result<Idx, StoreError>)
        requires
            old(self).wf(),
            page.wf(),
        ensures
            final(self).wf(),
            final(self).spec_id() == old(self).spec_id(),
            match r {
                Ok(idx) => {
                    &&& idx.val == old(self).pages_view().len()
                    &&& forall|k: u32| page@.contains_key(k) ==> !old(self)@.contains_key(k)
                    &&& final(self).pages_view() == old(self).pages_view().push(page@)
                    &&& final(self)@ == old(self)@.union_prefer_right(page@)
                    &&& final(self).fill() == old(self).fill().push(page.slots().len())
                    &&& final(self).partial_view() == (if page.spec_is_full() {
                        old(self).partial_view()
                    } else {
                        old(self).partial_view().insert(idx.val)
                    })
                },
                Err(e) => {
                    &&& final(self).pages_view() == old(self).pages_view()
                    &&& final(self).lookup() == old(self).lookup()
                    &&& final(self).partial_view() == old(self).partial_view()
                    &&& (e == StoreError::PageFull <==> old(self).pages_view().len() == u32::MAX)
                    &&& (e == StoreError::Corrupt <==> (old(self).pages_view().len() < u32::MAX
                        && exists|k: u32| #[trigger] page@.contains_key(k) && old(self)@.contains_key(k)))
                    &&& (e == StoreError::PageFull || e == StoreError::Corrupt)
                },
            },
    {
        proof {
            page.lemma_wf();
        }
        if self.pages.len() >= u32::MAX as usize {
            return Err(StoreError::PageFull);
        }
        let idx = self.pages.len() as u32;
        let keys = page.keys();
        let ghost start = *self;
        assert(start == *old(self));
        let mut i: usize = 0;
        while i < keys.len()
            invariant
                self.wf(),
                *self == start,
                start.pages@.len() < u32::MAX,
                start.pages_view().len() == start.pages@.len(),
                i <= keys@.len(),
                forall|j: int| 0 <= j < keys@.len() ==> page@.contains_key(#[trigger] keys@[j].val),
                forall|j: int| 0 <= j < i ==> !self.key_lookup@.contains_key(#[trigger] keys@[j].val),
            decreases keys@.len() - i,
        {
            if self.key_lookup.contains_key(&keys[i].val) {
                proof {
                    let k = keys@[i as int].val;
                    assert(page@.contains_key(k));
                    assert(old(self)@.contains_key(k));
                }
                return Err(StoreError::Corrupt);
            }
            i = i + 1;
        }
        let ghost old_lookup = self.key_lookup@;
        let ghost old_pages = self.pages_view();
        let mut i: usize = 0;
        while i < keys.len()
            invariant
                self.pages == start.pages,
                self.partial == start.partial,
                self.id == start.id,
                i <= keys@.len(),
                old_lookup == start.key_lookup@,
                old_pages == start.pages_view(),
                idx == old_pages.len(),
                forall|j: int| 0 <= j < keys@.len() ==> !old_lookup.contains_key(#[trigger] keys@[j].val),
                self.key_lookup@ == old_lookup.union_prefer_right(
                    Map::new(|k: u32| exists|j: int| 0 <= j < i && keys@[j].val == k, |k: u32| idx),
                ),
            decreases keys@.len() - i,
        {
            self.key_lookup.insert(keys[i].val, idx);
            proof {
                assert(self.key_lookup@ =~= old_lookup.union_prefer_right(
                    Map::new(|k: u32| exists|j: int| 0 <= j < i + 1 && keys@[j].val == k, |k: u32| idx),
                ));
            }
            i = i + 1;
        }
        if !page.is_full() {
            self.partial.insert(idx);
        }
        self.pages.push(page);
        proof {
            assert(self.pages_view() =~= old_pages.push(page@));
            assert forall|k: u32| #[trigger] self.key_lookup@.contains_key(k) implies self.key_lookup@[k]
                < self.pages_view().len() && self.pages_view()[self.key_lookup@[k] as int].contains_key(k) by {
                if !old_lookup.contains_key(k) {
                    let j = choose|j: int| 0 <= j < keys@.len() && keys@[j].val == k;
                }
            }
            assert forall|p: int, k: u32|
                0 <= p < self.pages_view().len() && #[trigger] self.pages_view()[p].contains_key(k) implies self.key_lookup@.contains_key(k)
                    && self.key_lookup@[k] == p by {
                if p == idx {
                    let j = choose|j: int| 0 <= j < keys@.len() && #[trigger] keys@[j].val == k;
                    assert(exists|j: int| 0 <= j < keys@.len() && keys@[j].val == k);
                } else {
                    assert(old_pages[p].contains_key(k));
                }
            }
            assert forall|k: u32| page@.contains_key(k) implies !old_lookup.contains_key(k) by {
                let j = choose|j: int| 0 <= j < keys@.len() && #[trigger] keys@[j].val == k;
            }
            assert forall|k: u32| #[trigger] self@.contains_key(k) implies self@[k]
                == start@.union_prefer_right(page@)[k] by {
                if page@.contains_key(k) {
                    let j = choose|j: int| 0 <= j < keys@.len() && #[trigger] keys@[j].val == k;
                    assert(self.key_lookup@[k] == idx);
                } else {
                    assert(old_lookup.contains_key(k));
                }
            }
            assert forall|k: u32| #[trigger] start@.union_prefer_right(page@).contains_key(k) implies self@.contains_key(k) by {
                if page@.contains_key(k) {
                    let j = choose|j: int| 0 <= j < keys@.len() && #[trigger] keys@[j].val == k;
                    assert(exists|j: int| 0 <= j < keys@.len() && keys@[j].val == k);
                }
            }
            assert(self@ =~= start@.union_prefer_right(page@));
            assert(self.fill() =~= start.fill().push(page.slots().len()));
        }
        Ok(Idx::new(idx))
    }

    pub fn id(&self) -> (r: BookId)
        ensures
            r == self.spec_id(),
    {
        self.id
    }

    /// Number of stored entries.
    pub fn len(&self) -> (r: usize)
        requires
            self.wf(),
        ensures
            r == self@.len(),
    {
        proof {
            assert(self@.dom() =~= self.lookup().dom());
        }
        self.key_lookup.len()
    }

    /// Number of pages.
    pub fn page_count(&self) -> (r: usize)
        requires
            self.wf(),
        ensures
            r == self.pages_view().len(),
    {
        self.pages.len()
    }

    /// The page at `idx`.
    pub fn page(&self, idx: Idx) -> (r: Option<&PageInner<V>>)
        requires
            self.wf(),
        ensures
            match r {
                Some(p) => idx.val < self.pages_view().len() && p@ == self.pages_view()[idx.val as int] && p.wf(),
                None => idx.val >= self.pages_view().len(),
            },
    {
        if (idx.val as usize) < self.pages.len() {
            Some(&self.pages[idx.val as usize])
        } else {
            None
        }
    }

    /// Whether page `idx` is one with a vacant slot.
    pub fn is_partial(&self, idx: Idx) -> (r: bool)
        requires
            self.wf(),
        ensures
            r == self.partial_view().contains(idx.val),
    {
        self.partial.contains(&idx.val)
    }

    /// Whether an insert of a new key needs another page first.
    pub fn needs_page(&self) -> (r: bool)
        requires
            self.wf(),
        ensures
            r == self.partial_view().is_empty(),
    {
        self.partial.is_empty()
    }

    /// The index the next added page will get.
    pub fn next_page_idx(&self) -> (r: Idx)
        requires
            self.wf(),
            self.pages_view().len() < u32::MAX,
        ensures
            r.val == self.pages_view().len(),
    {
        Idx::new(self.pages.len() as u32)
    }

    /// Whether `key` is stored.
    pub fn has_key(&self, key: Key) -> (r: bool)
        requires
            self.wf(),
        ensures
            r == self@.contains_key(key.val),
    {
        self.key_lookup.contains_key(&key.val)
    }

    /// The value stored under `key`.
    pub fn get(&self, key: Key) -> (r: Option<V>)
        requires
            self.wf(),
        ensures
            match r {
                Some(v) => self@.contains_key(key.val) && v == self@[key.val],
                None => !self@.contains_key(key.val),
            },
    {
        match self.key_lookup.get(&key.val) {
            Some(p) => {
                let page = &self.pages[*p as usize];
                match page.get_by_key(key) {
                    Ok(e) => Some(e.val()),
                    Err(_) => None,
                }
            },
            None => None,
        }
    }

    /// Stores a new key in the lowest-numbered page with a vacant slot.
    /// Fails with `KeyExists` for a stored key, and with `PageFull` when no
    /// page has a vacant slot (add one with `add_page`, then insert again).
    pub fn insert(&mut self, key: Key, val: V) -> (r: Result<Option<V>, StoreError>)
        requires
            old(self).wf(),
        ensures
            final(self).wf(),
            final(self).spec_id() == old(self).spec_id(),
            match r {
                Ok(prior) => {
                    &&& prior is None
                    &&& !old(self)@.contains_key(key.val)
                    &&& final(self)@ == old(self)@.insert(key.val, val)
                    &&& final(self).pages_view().len() == old(self).pages_view().len()
                    &&& final(self).fill() == fill_after_insert(old(self).fill(), cap_for::<V>())
                    &&& exists|p: u32| {
                        &&& #[trigger] old(self).partial_view().contains(p)
                        &&& forall|q: u32| old(self).partial_view().contains(q) ==> p <= q
                        &&& final(self).lookup() == old(self).lookup().insert(key.val, p)
                        &&& final(self).pages_view() == old(self).pages_view().update(
                            p as int,
                            old(self).pages_view()[p as int].insert(key.val, val),
                        )
                        &&& final(self).partial_view() == (if final(self).page_full(p as int) {
                            old(self).partial_view().remove(p)
                        } else {
                            old(self).partial_view()
                        })
                    }
                },
                Err(e) => {
                    &&& final(self)@ == old(self)@
                    &&& final(self).pages_view() == old(self).pages_view()
                    &&& final(self).lookup() == old(self).lookup()
                    &&& final(self).partial_view() == old(self).partial_view()
                    &&& (e == StoreError::KeyExists || e == StoreError::PageFull)
                    &&& (e == StoreError::KeyExists <==> old(self)@.contains_key(key.val))
                    &&& (e == StoreError::PageFull <==> (!old(self)@.contains_key(key.val)
                        && old(self).partial_view().is_empty()))
                },
            },
    {
        if self.key_lookup.contains_key(&key.val) {
            return Err(StoreError::KeyExists);
        }
        let p = match first_of(&self.partial) {
            Some(p) => p,
            None => {
                return Err(StoreError::PageFull);
            },
        };
        let ghost old_pages = self.pages_view();
        let ghost old_lookup = self.key_lookup@;
        let ghost old_partial = self.partial@;
        let ghost old_view = self@;
        assert(self.pages@[p as int].wf());
        proof {
            self.pages@[p as int].lemma_wf();
            assert(!old_pages[p as int].contains_key(key.val));
        }
        let ghost old_fill = self.fill();
        let ghost old_raw = self.pages@;
        let res = self.pages[p as usize].insert(key, val);
        proof {
            let cap = cap_for::<V>();
            let np = self.pages@[p as int];
            assert(self.pages@ == old_raw.update(p as int, np));
            old_raw[p as int].lemma_wf();
            np.lemma_wf();
            assert(np.slots().len() == old_raw[p as int].slots().len() + 1);
            assert(old_fill[p as int] < cap);
            assert forall|q: int| 0 <= q < p implies old_fill[q] >= cap by {
                old_raw[q].lemma_wf();
                assert(!old_partial.contains(q as u32));
            }
            lemma_first_with_room(old_fill, cap, p as int);
            assert(self.fill() =~= fill_after_insert(old_fill, cap));
        }
        let full = self.pages[p as usize].is_full();
        if full {
            self.partial.remove(&p);
        }
        self.key_lookup.insert(key.val, p);
        proof {
            assert(res is Ok);
            assert(self.pages_view() =~= old_pages.update(
                p as int,
                old_pages[p as int].insert(key.val, val),
            ));
            assert forall|q: int| 0 <= q < self.pages@.len() implies #[trigger] self.pages@[q].wf() by {
            }
            assert forall|q: u32| #[trigger] self.partial@.contains(q) <==> (q < self.pages@.len()
                && !self.pages@[q as int].spec_is_full()) by {
            }
            assert forall|q: int, k: u32|
                0 <= q < self.pages_view().len() && #[trigger] self.pages_view()[q].contains_key(k) implies self.key_lookup@.contains_key(k)
                    && self.key_lookup@[k] == q by {
                if k != key.val {
                    assert(old_pages[q].contains_key(k));
                }
            }
            assert(self@ =~= old_view.insert(key.val, val));
            assert(self.partial@ =~= (if self.page_full(p as int) {
                old_partial.remove(p)
            } else {
                old_partial
            }));
            assert(old(self).partial_view().contains(p));
            assert(forall|q: u32| old(self).partial_view().contains(q) ==> p <= q);
            assert(self.lookup() == old(self).lookup().insert(key.val, p));
        }
        match res {
            Ok(prior) => Ok(prior),
            Err(e) => Err(e),
        }
    }

    /// Removes `key`; its page then has a vacant slot. Fails with
    /// `KeyNotFound` when the key is not stored, changing nothing.
    pub fn delete(&mut self, key: Key) -> (r: Result<(), StoreError>)
        requires
            old(self).wf(),
        ensures
            final(self).wf(),
            final(self).spec_id() == old(self).spec_id(),
            match r {
                Ok(()) => {
                    &&& old(self)@.contains_key(key.val)
                    &&& final(self)@ == old(self)@.remove(key.val)
                    &&& final(self).lookup() == old(self).lookup().remove(key.val)
                    &&& final(self).pages_view() == old(self).pages_view().update(
                        old(self).lookup()[key.val] as int,
                        old(self).pages_view()[old(self).lookup()[key.val] as int].remove(key.val),
                    )
                    &&& final(self).partial_view() == old(self).partial_view().insert(
                        old(self).lookup()[key.val],
                    )
                },
                Err(e) => {
                    &&& e == StoreError::KeyNotFound
                    &&& !old(self)@.contains_key(key.val)
                    &&& final(self)@ == old(self)@
                    &&& final(self).pages_view() == old(self).pages_view()
                    &&& final(self).lookup() == old(self).lookup()
                    &&& final(self).partial_view() == old(self).partial_view()
                },
            },
    {
        let p = match self.key_lookup.get(&key.val) {
            Some(p) => *p,
            None => {
                return Err(StoreError::KeyNotFound);
            },
        };
        let ghost old_pages = self.pages_view();
        let ghost old_lookup = self.key_lookup@;
        let ghost old_partial = self.partial@;
        let ghost old_view = self@;
        proof {
            self.pages@[p as int].lemma_wf();
        }
        let res = self.pages[p as usize].delete(key);
        proof {
            assert(res is Ok);
            self.pages@[p as int].lemma_wf();
            assert(!self.pages@[p as int].spec_is_full()) by {
                let s = crate::page_inner::slot_holding(old(self).pages@[p as int].slots(), key.val);
                assert(old(self).pages@[p as int].slots().contains_key(s));
                assert(!self.pages@[p as int].slots().contains_key(s));
            }
        }
        self.partial.insert(p);
        self.key_lookup.remove(&key.val);
        proof {
            assert(self.pages_view() =~= old_pages.update(
                p as int,
                old_pages[p as int].remove(key.val),
            ));
            assert forall|q: int| 0 <= q < self.pages@.len() implies #[trigger] self.pages@[q].wf() by {
            }
            assert forall|q: u32| #[trigger] self.partial@.contains(q) <==> (q < self.pages@.len()
                && !self.pages@[q as int].spec_is_full()) by {
            }
            assert forall|q: int, k: u32|
                0 <= q < self.pages_view().len() && #[trigger] self.pages_view()[q].contains_key(k) implies self.key_lookup@.contains_key(k)
                    && self.key_lookup@[k] == q by {
                assert(old_pages[q].contains_key(k));
            }
            assert(self@ =~= old_view.remove(key.val));
        }
        Ok(())
    }

    /// Gives back the pages, in index order.
    pub fn into_pages(self) -> (r: Vec<PageInner<V>>)
        requires
            self.wf(),
        ensures
            r@.map_values(|p: PageInner<V>| p@) == self.pages_view(),
            forall|p: int| 0 <= p < r@.len() ==> #[trigger] r@[p].wf(),
    {
        self.pages
    }
}

/// Whether page files numbered by `indices` are exactly pages `0..indices.len()`.
pub open spec fn pages_numbered(indices: Seq<u32>) -> bool {
    &&& indices.len() <= u32::MAX
    &&& forall|j: u32| j < indices.len() ==> indices.contains(j)
}

/// The number of pages of a book whose page files are numbered `indices`
/// (in any order). Fails with `Corrupt` unless they are `0..n`, each once.
pub fn checked_page_count(indices: &Vec<u32>) -> (r: Result<u32, StoreError>)
    ensures
        match r {
            Ok(n) => n == indices@.len() && pages_numbered(indices@),
            Err(e) => e == StoreError::Corrupt && !pages_numbered(indices@),
        },
{
    if indices.len() > u32::MAX as usize {
        return Err(StoreError::Corrupt);
    }
    let n = indices.len() as u32;
    let mut j: u32 = 0;
    while j < n
        invariant
            n == indices@.len(),
            j <= n,
            forall|i: u32| i < j ==> indices@.contains(i),
        decreases n - j,
    {
        let mut found = false;
        let mut p: usize = 0;
        while p < indices.len()
            invariant
                n == indices@.len(),
                p <= indices@.len(),
                found ==> indices@.contains(j),
                !found ==> forall|q: int| 0 <= q < p ==> indices@[q] != j,
            decreases indices@.len() - p,
        {
            if indices[p] == j {
                found = true;
            }
            p = p + 1;
        }
        if !found {
            assert(!indices@.contains(j));
            return Err(StoreError::Corrupt);
        }
        j = j + 1;
    }
    Ok(n)
}

/// Key to value after inserting `keys[i]` with `vals[i]`, in order, into `m`.
pub open spec fn insert_all<V>(m: Map<u32, V>, keys: Seq<u32>, vals: Seq<V>) -> Map<u32, V>
    decreases keys.len(),
{
    if keys.len() == 0 {
        m
    } else {
        insert_all(m, keys.drop_last(), vals.drop_last()).insert(
            keys.last(),
            vals[keys.len() - 1],
        )
    }
}

/// Inserting distinct keys, none of them stored yet, one after another adds
/// one entry per key, and each of them is stored afterwards.
pub proof fn lemma_distinct_inserts_count<V>(m: Map<u32, V>, keys: Seq<u32>, vals: Seq<V>)
    requires
        m.dom().finite(),
        keys.no_duplicates(),
        keys.len() == vals.len(),
        forall|i: int| 0 <= i < keys.len() ==> !m.contains_key(#[trigger] keys[i]),
    ensures
        insert_all(m, keys, vals).dom().finite(),
        insert_all(m, keys, vals).len() == m.len() + keys.len(),
        forall|k: u32|
            #[trigger] insert_all(m, keys, vals).contains_key(k) <==> (m.contains_key(k)
                || keys.contains(k)),
    decreases keys.len(),
{
    if keys.len() > 0 {
        let (ks, vs) = (keys.drop_last(), vals.drop_last());
        assert forall|i: int| 0 <= i < ks.len() implies !m.contains_key(#[trigger] ks[i]) by {
            assert(ks[i] == keys[i]);
        }
        lemma_distinct_inserts_count(m, ks, vs);
        assert(!ks.contains(keys.last())) by {
            if ks.contains(keys.last()) {
                let i = choose|i: int| 0 <= i < ks.len() && ks[i] == keys.last();
                assert(keys[i] == keys[keys.len() - 1]);
            }
        }
        assert(!m.contains_key(keys.last())) by {
            assert(!m.contains_key(keys[keys.len() - 1]));
        }
        assert forall|k: u32| #[trigger]
            insert_all(m, keys, vals).contains_key(k) <==> (m.contains_key(k) || keys.contains(k)) by {
            if keys.contains(k) && k != keys.last() {
                let i = choose|i: int| 0 <= i < keys.len() && keys[i] == k;
                assert(ks[i] == k);
            }
            if ks.contains(k) {
                let i = choose|i: int| 0 <= i < ks.len() && ks[i] == k;
                assert(keys[i] == k);
            }
        }
    }
}

/// Inserting a key that is not stored and then deleting it leaves the
/// contents as they were: the key is gone and the length is the old one.
pub proof fn lemma_insert_then_delete<V>(m: Map<u32, V>, k: u32, v: V)
    requires
        m.dom().finite(),
        !m.contains_key(k),
    ensures
        m.insert(k, v).remove(k) == m,
        !m.insert(k, v).remove(k).contains_key(k),
        m.insert(k, v).remove(k).len() == m.len(),
{
    assert(m.insert(k, v).remove(k) =~= m);
}

/// Once a key is inserted it is stored with the value given; a second insert
/// of the same key is refused (`KeyExists`) and leaves the contents as they
/// are, so the first value stays.
pub proof fn lemma_first_value_stays<V>(m: Map<u32, V>, k: u32, v1: V)
    ensures
        m.insert(k, v1).contains_key(k),
        m.insert(k, v1)[k] == v1,
{
}

} // verus!
