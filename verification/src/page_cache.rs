//! A table of cached pages with a fixed number of slots.

use vstd::prelude::*;
use vstd::slice::slice_subrange;
use bumpalo::collections::Vec as BumpVec;
use bumpalo::Bump;
use crate::error::Error;
use crate::scratch::{scratch_items, scratch_new, scratch_push, scratch_slice_mut};
use crate::phys_mem::{
    all_read_from, apply_writes, byte_after_writes, byte_mapped, copy_bytes, reads_from,
    requests_of, same_shape, splice, write_holds, Memory, PhysicalMemory, PhysicalReadData,
    PhysicalWriteData, ReadLog,
};
use crate::types::{
    chunk_end, is_power_of_two, lemma_page_base, lemma_same_page, page_base, page_chunk, Address,
    PageType,
    PhysicalAddress,
};
use crate::validator::CacheValidator;

verus! {

/// One slot of the table: the page it holds, the stamp of its filling,
/// and the bytes of the page. A slot without a stamp holds no page.
pub struct CacheSlot {
    pub address: Address,
    pub stamp: Option<u64>,
    pub buf: Vec<u8>,
}

/// A vector of `n` zero bytes.
pub fn zeroed(n: usize) -> (r: Vec<u8>)
    ensures
        r@.len() == n,
        forall|j: int| 0 <= j < n ==> (#[trigger] r@[j]) == 0,
{
    let mut r: Vec<u8> = Vec::new();
    let mut k: usize = 0;
    while k < n
        invariant
            k <= n,
            r@.len() == k,
            forall|j: int| 0 <= j < k ==> (#[trigger] r@[j]) == 0,
        decreases n - k,
    {
        r.push(0u8);
        k += 1;
    }
    r
}

/// Whether `buf` holds the bytes of `mem` at the addresses from `page`
/// on, as far as `mem` maps them.
pub open spec fn holds_page(mem: Memory, page: int, buf: Seq<u8>) -> bool {
    forall|j: int|
        0 <= j < buf.len() && page + j <= u64::MAX && mem.dom().contains((page + j) as u64) ==> (
        #[trigger] buf[j]) == mem[(page + j) as u64]
}

/// A table of page-sized slots. The slot of a page follows from its
/// address alone, so a page that comes to a slot drives out the page that
/// was there. `Q` says how long a page stays fresh.
pub struct PageCache<Q> {
    slots: Vec<CacheSlot>,
    page_size: usize,
    page_type_mask: PageType,
    validator: Q,
}

impl<Q: CacheValidator> PageCache<Q> {
    /// The slots.
    pub closed spec fn slots(&self) -> Seq<CacheSlot> {
        self.slots@
    }

    /// The number of bytes of a page.
    pub closed spec fn page_len(&self) -> usize {
        self.page_size
    }

    /// The page types whose pages are cached.
    pub closed spec fn mask(&self) -> PageType {
        self.page_type_mask
    }

    /// The policy that says how long a page stays fresh.
    pub closed spec fn validator(&self) -> Q {
        self.validator
    }

    /// There is a slot, the page size is a power of two, every slot has a
    /// buffer of one page, and a slot that holds a page is the slot of
    /// that page.
    pub open spec fn wf(&self) -> bool {
        &&& self.slots().len() > 0
        &&& is_power_of_two(self.page_len())
        &&& forall|i: int|
            0 <= i < self.slots().len() ==> (#[trigger] self.slots()[i]).buf@.len()
                == self.page_len()
        &&& forall|i: int|
            0 <= i < self.slots().len() && (#[trigger] self.slots()[i]).stamp is Some
                ==> self.slots()[i].address.0 % (self.page_len() as u64) == 0 && self.slot_of(
                self.slots()[i].address.0 as int,
            ) == i
    }

    /// The index of the slot for the page that holds the address `x`.
    pub open spec fn slot_of(&self, x: int) -> int {
        (x / (self.page_len() as int)) % (self.slots().len() as int)
    }

    /// Whether slot `i` holds a page that is still fresh.
    pub open spec fn slot_valid(&self, i: int) -> bool {
        self.slots()[i].stamp matches Some(s) && self.validator().fresh(s)
    }

    /// Whether the table holds the page that starts at `page`, and the
    /// page is still fresh.
    pub open spec fn holds(&self, page: int) -> bool {
        self.slot_valid(self.slot_of(page)) && self.slots()[self.slot_of(page)].address.0 == page
    }

    /// Whether pages of type `page_type` are cached.
    pub open spec fn cacheable(&self, page_type: PageType) -> bool {
        self.mask().spec_contains(page_type)
    }

    /// Whether the table holds none of the pages that a request of `len`
    /// bytes at `addr` touches.
    pub open spec fn untouched(&self, addr: PhysicalAddress, len: usize) -> bool {
        forall|x: int|
            addr.as_int() <= x < request_end(addr, len as int) ==> !self.holds(
                #[trigger] page_base(x, self.page_len() as int),
            )
    }

    /// Whether every fresh page of the table holds the bytes of `mem`.
    pub open spec fn coherent(&self, mem: Memory) -> bool {
        forall|i: int|
            0 <= i < self.slots().len() && self.slot_valid(i) ==> holds_page(
                mem,
                self.slots()[i].address.0 as int,
                (#[trigger] self.slots()[i]).buf@,
            )
    }

    /// The page and the stamp of each slot.
    pub open spec fn tags(&self) -> Seq<(Address, Option<u64>)> {
        Seq::new(self.slots().len(), |i: int| (self.slots()[i].address, self.slots()[i].stamp))
    }

    /// The page and the stamp of each slot once the pages of `pages` have
    /// been put into their slots, in order, with the stamp of now.
    pub open spec fn tags_after(&self, pages: Seq<PhysicalAddress>) -> Seq<(Address, Option<u64>)>
        decreases pages.len(),
    {
        if pages.len() == 0 {
            self.tags()
        } else {
            self.tags_after(pages.drop_last()).update(
                self.slot_of(pages.last().as_int()),
                (pages.last().address, Some(self.validator().now())),
            )
        }
    }

    /// The table with the policy `validator` in place of its own.
    pub closed spec fn with_validator(self, validator: Q) -> Self {
        PageCache {
            slots: self.slots,
            page_size: self.page_size,
            page_type_mask: self.page_type_mask,
            validator,
        }
    }

    /// A table with another policy keeps its slots, its page size and its
    /// page types.
    pub proof fn lemma_with_validator(self, validator: Q)
        ensures
            self.with_validator(validator).slots() == self.slots(),
            self.with_validator(validator).page_len() == self.page_len(),
            self.with_validator(validator).mask() == self.mask(),
            self.with_validator(validator).validator() == validator,
    {
    }

    /// A table of `slot_count` empty slots for pages of `page_size` bytes.
    /// The page size has to be a power of two, and there has to be a slot.
    pub fn new(page_size: usize, slot_count: usize, page_type_mask: PageType, validator: Q) -> (r:
        Result<Self, Error>)
        ensures
            r is Ok <==> is_power_of_two(page_size) && slot_count > 0,
            r matches Err(e) ==> e == Error::Internal,
            r matches Ok(c) ==> {
                &&& c.wf()
                &&& c.page_len() == page_size
                &&& c.slots().len() == slot_count
                &&& c.mask() == page_type_mask
                &&& c.validator() == validator
                &&& forall|i: int| 0 <= i < c.slots().len() ==> (#[trigger] c.slots()[i]).stamp is None
            },
    {
        if page_size == 0 || page_size & (page_size - 1) != 0 || slot_count == 0 {
            return Err(Error::Internal);
        }
        let mut slots: Vec<CacheSlot> = Vec::new();
        let mut i: usize = 0;
        while i < slot_count
            invariant
                i <= slot_count,
                slots@.len() == i,
                forall|k: int| 0 <= k < i ==> (#[trigger] slots@[k]).buf@.len() == page_size,
                forall|k: int| 0 <= k < i ==> (#[trigger] slots@[k]).stamp is None,
            decreases slot_count - i,
        {
            slots.push(CacheSlot { address: Address(0), stamp: None, buf: zeroed(page_size) });
            i += 1;
        }
        Ok(PageCache { slots, page_size, page_type_mask, validator })
    }

    /// The number of bytes of a page.
    pub fn page_size(&self) -> (r: usize)
        ensures
            r == self.page_len(),
    {
        self.page_size
    }

    /// The number of slots.
    pub fn slot_count(&self) -> (r: usize)
        ensures
            r == self.slots().len(),
    {
        self.slots.len()
    }

    /// Whether pages of type `page_type` are cached.
    pub fn is_cached_page_type(&self, page_type: PageType) -> (r: bool)
        ensures
            r == self.cacheable(page_type),
    {
        self.page_type_mask.contains(page_type)
    }

    /// Advances the clock of the policy by one step. Nothing else of the
    /// table changes. A table that was coherent with a memory stays so:
    /// pages go stale and none becomes fresh.
    pub fn update_validity(&mut self)
        ensures
            *final(self) == old(self).with_validator(final(self).validator()),
            final(self).slots() == old(self).slots(),
            final(self).page_len() == old(self).page_len(),
            final(self).mask() == old(self).mask(),
            old(self).validator().advances_to(final(self).validator()),
            final(self).validator().now() >= old(self).validator().now(),
            forall|s: u64|
                (#[trigger] final(self).validator().fresh(s)) ==> old(self).validator().fresh(s),
            old(self).wf() ==> final(self).wf(),
            forall|mem: Memory| old(self).coherent(mem) ==> #[trigger] final(self).coherent(mem),
            forall|page: int| (#[trigger] final(self).holds(page)) ==> old(self).holds(page),
            forall|addr: PhysicalAddress, len: usize|
                old(self).untouched(addr, len) ==> #[trigger] final(self).untouched(addr, len),
    {
        self.validator.update_validity();
        proof {
            assert forall|addr: PhysicalAddress, len: usize| old(self).untouched(addr, len) implies #[trigger] self.untouched(
                addr,
                len,
            ) by {
                assert forall|x: int| addr.as_int() <= x < request_end(addr, len as int) implies !self.holds(
                    #[trigger] page_base(x, self.page_len() as int),
                ) by {
                    assert(!old(self).holds(page_base(x, old(self).page_len() as int)));
                }
            }
            assert forall|mem: Memory| old(self).coherent(mem) implies #[trigger] self.coherent(
                mem,
            ) by {
                assert forall|i: int| 0 <= i < self.slots().len() && self.slot_valid(i) implies holds_page(
                    mem,
                    self.slots()[i].address.0 as int,
                    (#[trigger] self.slots()[i]).buf@,
                ) by {
                    assert(old(self).slot_valid(i));
                }
            }
        }
    }

    /// The slot of the page that holds `addr`, whatever it holds now.
    pub fn lookup(&self, addr: Address) -> (i: usize)
        requires
            self.wf(),
        ensures
            i == self.slot_of(addr.0 as int),
            i < self.slots().len(),
    {
        let page_number: u64 = addr.0 / (self.page_size as u64);
        let count: u64 = self.slots.len() as u64;
        (page_number % count) as usize
    }

    /// Whether the table holds the page that starts at `page`, and the
    /// page is still fresh.
    pub fn is_valid_page(&self, page: Address) -> (r: bool)
        requires
            self.wf(),
        ensures
            r == self.holds(page.0 as int),
    {
        let i = self.lookup(page);
        match self.slots[i].stamp {
            Some(s) => self.validator.is_valid(s) && self.slots[i].address.0 == page.0,
            None => false,
        }
    }

    /// Puts the page that starts at `page` into its slot, with the bytes
    /// of `buf` and the stamp of now, and hands the bytes that the slot
    /// held back in `buf`.
    pub fn install(&mut self, page: Address, buf: &mut Vec<u8>)
        requires
            old(self).wf(),
            page.0 % (old(self).page_len() as u64) == 0,
            old(buf)@.len() == old(self).page_len(),
        ensures
            final(self).wf(),
            final(self).page_len() == old(self).page_len(),
            final(self).mask() == old(self).mask(),
            final(self).validator() == old(self).validator(),
            final(self).slots().len() == old(self).slots().len(),
            forall|i: int|
                0 <= i < old(self).slots().len() && i != old(self).slot_of(page.0 as int) ==> (
                #[trigger] final(self).slots()[i]) == old(self).slots()[i],
            final(self).slots()[old(self).slot_of(page.0 as int)].address == page,
            final(self).slots()[old(self).slot_of(page.0 as int)].stamp == Some(
                old(self).validator().now(),
            ),
            final(self).slots()[old(self).slot_of(page.0 as int)].buf@ == old(buf)@,
            final(buf)@ == old(self).slots()[old(self).slot_of(page.0 as int)].buf@,
    {
        let i = self.lookup(page);
        let s = self.validator.stamp();
        core::mem::swap(&mut self.slots[i].buf, buf);
        self.slots[i].address = page;
        self.slots[i].stamp = Some(s);
        proof {
            assert forall|k: int|
                0 <= k < self.slots().len() && (#[trigger] self.slots()[k]).stamp is Some implies self.slots()[k].address.0
                % (self.page_len() as u64) == 0 && self.slot_of(self.slots()[k].address.0 as int)
                == k by {
                if k != i {
                    assert(self.slots()[k] == old(self).slots()[k]);
                }
            }
            assert forall|k: int| 0 <= k < self.slots().len() implies (
            #[trigger] self.slots()[k]).buf@.len() == self.page_len() by {
                if k != i {
                    assert(self.slots()[k] == old(self).slots()[k]);
                }
            }
        }
    }

    /// Writes `bytes` over the bytes of slot `slot` from `offset` on. The
    /// page of the slot and its stamp stay as they are.
    pub fn patch(&mut self, slot: usize, offset: usize, bytes: &[u8])
        requires
            old(self).wf(),
            slot < old(self).slots().len(),
            offset + bytes@.len() <= old(self).page_len(),
        ensures
            final(self).wf(),
            final(self).page_len() == old(self).page_len(),
            final(self).mask() == old(self).mask(),
            final(self).validator() == old(self).validator(),
            final(self).slots().len() == old(self).slots().len(),
            forall|i: int|
                0 <= i < old(self).slots().len() && i != slot ==> (#[trigger] final(self).slots()[i])
                    == old(self).slots()[i],
            final(self).slots()[slot as int].address == old(self).slots()[slot as int].address,
            final(self).slots()[slot as int].stamp == old(self).slots()[slot as int].stamp,
            final(self).slots()[slot as int].buf@ == splice(
                old(self).slots()[slot as int].buf@,
                offset as int,
                bytes@,
            ),
    {
        let n: usize = bytes.len();
        copy_bytes(&mut self.slots[slot].buf, offset, bytes, 0, n);
        proof {
            assert(bytes@.subrange(0, n as int) == bytes@);
            assert forall|k: int|
                0 <= k < self.slots().len() && (#[trigger] self.slots()[k]).stamp is Some implies self.slots()[k].address.0
                % (self.page_len() as u64) == 0 && self.slot_of(self.slots()[k].address.0 as int)
                == k by {
                if k != slot {
                    assert(self.slots()[k] == old(self).slots()[k]);
                } else {
                    assert(old(self).slots()[k].stamp is Some);
                }
            }
            assert forall|k: int| 0 <= k < self.slots().len() implies (
            #[trigger] self.slots()[k]).buf@.len() == self.page_len() by {
                if k != slot {
                    assert(self.slots()[k] == old(self).slots()[k]);
                }
            }
        }
    }
}

/// The end of the request of `len` bytes at `addr`: the address after its
/// last byte, or the end of the address space where that comes first.
pub open spec fn request_end(addr: PhysicalAddress, len: int) -> int {
    if addr.as_int() + len <= u64::MAX {
        addr.as_int() + len
    } else {
        u64::MAX + 1
    }
}

/// The addresses of the requests of `items`.
pub open spec fn pages_of(items: Seq<PhysicalReadData>) -> Seq<PhysicalAddress> {
    Seq::new(items.len(), |k: int| items[k].addr)
}

/// Whether a page that starts at `page` is among `staged`.
pub open spec fn is_staged(staged: Seq<PhysicalAddress>, page: int) -> bool {
    exists|k: int| 0 <= k < staged.len() && (#[trigger] staged[k]).address.0 == page
}

/// Whether each request of `items` is for one whole page of `page_size`
/// bytes.
pub open spec fn whole_pages(items: Seq<PhysicalReadData>, page_size: usize) -> bool {
    forall|k: int|
        0 <= k < items.len() ==> (#[trigger] items[k]).buf@.len() == page_size
            && items[k].addr.address.0 % (page_size as u64) == 0
}

/// Whether each request of `items` holds the bytes of `mem` from its
/// address on.
pub open spec fn hold_pages(mem: Memory, items: Seq<PhysicalReadData>) -> bool {
    forall|k: int|
        0 <= k < items.len() ==> holds_page(
            mem,
            (#[trigger] items[k]).addr.as_int(),
            items[k].buf@,
        )
}

/// Whether `k` is the index of the first request of `items` for the page
/// that starts at `page`.
pub open spec fn is_first_staged(items: Seq<PhysicalReadData>, page: int, k: int) -> bool {
    &&& 0 <= k < items.len()
    &&& items[k].addr.address.0 == page
    &&& forall|i: int| 0 <= i < k ==> (#[trigger] items[i]).addr.address.0 != page
}

/// The index of the first request of `items` for the page that starts at
/// `page`, where there is one.
pub open spec fn first_staged(items: Seq<PhysicalReadData>, page: int) -> int {
    choose|k: int| is_first_staged(items, page, k)
}

/// There is one first request for a page at most.
pub proof fn lemma_first_staged(items: Seq<PhysicalReadData>, page: int, k: int)
    requires
        is_first_staged(items, page, k),
    ensures
        first_staged(items, page) == k,
        is_staged(pages_of(items), page),
{
    let c = first_staged(items, page);
    assert(is_first_staged(items, page, c));
    if c < k {
        assert(items[c].addr.address.0 != page);
    } else if k < c {
        assert(items[k].addr.address.0 != page);
    }
    assert(pages_of(items)[k].address.0 == page);
}

/// Where a request for a page is among `items`, one of them is the
/// first.
pub proof fn lemma_has_first(items: Seq<PhysicalReadData>, page: int, k: int)
    requires
        0 <= k < items.len(),
        items[k].addr.address.0 == page,
    ensures
        exists|f: int| is_first_staged(items, page, f),
    decreases k,
{
    if forall|i: int| 0 <= i < k ==> (#[trigger] items[i]).addr.address.0 != page {
        assert(is_first_staged(items, page, k));
    } else {
        let i = choose|i: int| 0 <= i < k && (#[trigger] items[i]).addr.address.0 == page;
        lemma_has_first(items, page, i);
    }
}

/// The index of the first request of `items` for the page that starts at
/// `page`, if there is one.
pub fn find_staged(items: &[PhysicalReadData], page: Address) -> (r: Option<usize>)
    ensures
        r is Some <==> is_staged(pages_of(items@), page.0 as int),
        r matches Some(k) ==> k < items@.len() && items@[k as int].addr.address == page
            && k == first_staged(items@, page.0 as int),
{
    let n: usize = items.len();
    let mut k: usize = 0;
    while k < n
        invariant
            n == items@.len(),
            k <= n,
            forall|i: int| 0 <= i < k ==> (#[trigger] items@[i]).addr.address.0 != page.0,
        decreases n - k,
    {
        if items[k].addr.address.0 == page.0 {
            proof {
                lemma_first_staged(items@, page.0 as int, k as int);
            }
            return Some(k);
        }
        k += 1;
    }
    proof {
        if is_staged(pages_of(items@), page.0 as int) {
            let i = choose|i: int|
                0 <= i < pages_of(items@).len() && (#[trigger] pages_of(items@)[i]).address.0
                    == page.0;
            assert(items@[i].addr.address.0 != page.0);
        }
    }
    None
}

impl<Q: CacheValidator> PageCache<Q> {
    /// The pages to fetch once the page at `page` has been asked for:
    /// one more, unless the table holds the page or it is staged already.
    pub open spec fn stage_page(
        &self,
        staged: Seq<PhysicalAddress>,
        page_type: PageType,
        page: int,
    ) -> Seq<PhysicalAddress> {
        if self.holds(page) || is_staged(staged, page) {
            staged
        } else {
            staged.push(PhysicalAddress { address: Address(page as u64), page_type })
        }
    }

    /// The pages to fetch once the addresses from `x` up to `hi` have
    /// been asked for, page by page.
    pub open spec fn stage_range(
        &self,
        staged: Seq<PhysicalAddress>,
        page_type: PageType,
        x: int,
        hi: int,
    ) -> Seq<PhysicalAddress>
        decreases hi - x,
    {
        if x >= hi || x < 0 || self.page_len() == 0 {
            staged
        } else {
            proof {
                lemma_page_base(x, self.page_len() as int);
            }
            self.stage_range(
                self.stage_page(staged, page_type, page_base(x, self.page_len() as int)),
                page_type,
                chunk_end(x, hi, self.page_len() as int),
                hi,
            )
        }
    }

    /// The pages that a batch of reads has fetched from the backend, in
    /// the order of their fetching: each page that a request with a
    /// cached page type touches and the table does not hold, once.
    pub open spec fn stage_batch(&self, data: Seq<PhysicalReadData>) -> Seq<PhysicalAddress>
        decreases data.len(),
    {
        if data.len() == 0 {
            Seq::empty()
        } else if self.cacheable(data.last().addr.page_type) {
            self.stage_range(
                self.stage_batch(data.drop_last()),
                data.last().addr.page_type,
                data.last().addr.as_int(),
                request_end(data.last().addr, data.last().buf@.len() as int),
            )
        } else {
            self.stage_batch(data.drop_last())
        }
    }

    /// The requests of a batch of reads that go to the backend as they
    /// are: those whose page type is not cached.
    pub open spec fn bypassed(&self, data: Seq<PhysicalReadData>) -> Seq<PhysicalReadData>
        decreases data.len(),
    {
        if data.len() == 0 {
            Seq::empty()
        } else if self.cacheable(data.last().addr.page_type) {
            self.bypassed(data.drop_last())
        } else {
            self.bypassed(data.drop_last()).push(data.last())
        }
    }

    /// Whether the table holds or `staged` names the page of each address
    /// from `lo` up to `hi`.
    pub open spec fn covered(&self, staged: Seq<PhysicalAddress>, lo: int, hi: int) -> bool {
        forall|x: int|
            lo <= x < hi ==> self.holds(#[trigger] page_base(x, self.page_len() as int))
                || is_staged(staged, page_base(x, self.page_len() as int))
    }

    /// Staging keeps what was staged.
    pub proof fn lemma_stage_keeps(
        &self,
        staged: Seq<PhysicalAddress>,
        page_type: PageType,
        x: int,
        hi: int,
        page: int,
    )
        requires
            is_staged(staged, page),
        ensures
            is_staged(self.stage_range(staged, page_type, x, hi), page),
        decreases hi - x,
    {
        if x >= hi || x < 0 || self.page_len() == 0 {
        } else {
            lemma_page_base(x, self.page_len() as int);
            let p = page_base(x, self.page_len() as int);
            let next = self.stage_page(staged, page_type, p);
            let k = choose|k: int| 0 <= k < staged.len() && (#[trigger] staged[k]).address.0 == page;
            assert(next[k].address.0 == page);
            self.lemma_stage_keeps(next, page_type, chunk_end(x, hi, self.page_len() as int), hi, page);
        }
    }

    /// Once a range has been staged, the table holds or the result names
    /// the page of each of its addresses.
    pub proof fn lemma_stage_covers(
        &self,
        staged: Seq<PhysicalAddress>,
        page_type: PageType,
        x: int,
        hi: int,
    )
        requires
            0 <= x,
            hi <= u64::MAX + 1,
            self.page_len() > 0,
        ensures
            self.covered(self.stage_range(staged, page_type, x, hi), x, hi),
        decreases hi - x,
    {
        let ps = self.page_len() as int;
        let out = self.stage_range(staged, page_type, x, hi);
        if x >= hi {
        } else {
            lemma_page_base(x, ps);
            let p = page_base(x, ps);
            let next = self.stage_page(staged, page_type, p);
            let e = chunk_end(x, hi, ps);
            self.lemma_stage_covers(next, page_type, e, hi);
            assert forall|y: int| x <= y < hi implies self.holds(#[trigger] page_base(y, ps))
                || is_staged(out, page_base(y, ps)) by {
                if y < e {
                    lemma_same_page(p, y, ps);
                    if !self.holds(p) {
                        if !is_staged(staged, p) {
                            assert(next[next.len() - 1].address.0 == p);
                        }
                        assert(is_staged(next, p));
                        self.lemma_stage_keeps(next, page_type, e, hi, p);
                    }
                }
            }
        }
    }
}

impl<Q: CacheValidator> PageCache<Q> {
    /// The requests that go to the backend as they are, of the first
    /// requests of a batch, are the first of those of the whole batch.
    pub proof fn lemma_bypassed_prefix(&self, data: Seq<PhysicalReadData>, i: int)
        requires
            0 <= i <= data.len(),
        ensures
            self.bypassed(data.take(i)).len() <= self.bypassed(data).len(),
            self.bypassed(data.take(i)) == self.bypassed(data).take(
                self.bypassed(data.take(i)).len() as int,
            ),
        decreases data.len(),
    {
        if i == data.len() {
            assert(data.take(i) =~= data);
            assert(self.bypassed(data).take(self.bypassed(data).len() as int) =~= self.bypassed(
                data,
            ));
        } else {
            assert(data.drop_last().take(i) =~= data.take(i));
            self.lemma_bypassed_prefix(data.drop_last(), i);
            let head = self.bypassed(data.take(i));
            let rest = self.bypassed(data.drop_last());
            assert(head =~= self.bypassed(data).take(head.len() as int));
        }
    }

    /// Once a batch has been staged, the table holds or the result names
    /// the page of each address of each request with a cached page type.
    pub proof fn lemma_batch_covers(&self, data: Seq<PhysicalReadData>, i: int)
        requires
            self.page_len() > 0,
            0 <= i < data.len(),
            self.cacheable(data[i].addr.page_type),
        ensures
            self.covered(
                self.stage_batch(data),
                data[i].addr.as_int(),
                request_end(data[i].addr, data[i].buf@.len() as int),
            ),
        decreases data.len(),
    {
        let ps = self.page_len() as int;
        let last = data.last();
        let before = self.stage_batch(data.drop_last());
        let lo = data[i].addr.as_int();
        let hi = request_end(data[i].addr, data[i].buf@.len() as int);
        if i == data.len() - 1 {
            self.lemma_stage_covers(before, last.addr.page_type, lo, hi);
        } else {
            assert(data.drop_last()[i] == data[i]);
            self.lemma_batch_covers(data.drop_last(), i);
            if self.cacheable(last.addr.page_type) {
                let out = self.stage_batch(data);
                assert forall|x: int| lo <= x < hi implies self.holds(#[trigger] page_base(x, ps))
                    || is_staged(out, page_base(x, ps)) by {
                    let p = page_base(x, ps);
                    if !self.holds(p) {
                        assert(is_staged(before, p));
                        self.lemma_stage_keeps(
                            before,
                            last.addr.page_type,
                            last.addr.as_int(),
                            request_end(last.addr, last.buf@.len() as int),
                            p,
                        );
                    }
                }
            }
        }
    }

    /// Stages the pages of the request of `len` bytes at `addr` that the
    /// table does not hold: for each that is not staged yet, a request for
    /// the whole page is appended to `staged`.
    fn stage_request(
        &self,
        staged: &mut BumpVec<'_, PhysicalReadData>,
        addr: PhysicalAddress,
        len: usize,
    )
        requires
            self.wf(),
            whole_pages(scratch_items(old(staged)), self.page_len()),
        ensures
            whole_pages(scratch_items(final(staged)), self.page_len()),
            pages_of(scratch_items(final(staged))) == self.stage_range(
                pages_of(scratch_items(old(staged))),
                addr.page_type,
                addr.as_int(),
                request_end(addr, len as int),
            ),
    {
        let ps: usize = self.page_size;
        let lo: u128 = addr.address.0 as u128;
        let full: u128 = lo + len as u128;
        let hi: u128 = if full > u64::MAX as u128 + 1 {
            u64::MAX as u128 + 1
        } else {
            full
        };
        let mut x: u128 = lo;
        while x < hi
            invariant
                self.wf(),
                ps == self.page_len(),
                lo == addr.as_int(),
                lo <= x <= hi,
                hi == request_end(addr, len as int),
                hi <= u64::MAX + 1,
                whole_pages(scratch_items(&*staged), ps),
                self.stage_range(
                    pages_of(scratch_items(&*staged)),
                    addr.page_type,
                    x as int,
                    hi as int,
                ) == self.stage_range(
                    pages_of(scratch_items(old(staged))),
                    addr.page_type,
                    lo as int,
                    hi as int,
                ),
            decreases hi - x,
        {
            let (page, n) = page_chunk(x as u64, hi, ps);
            let ghost before = scratch_items(&*staged);
            let mut found: bool = self.is_valid_page(page);
            if !found {
                let items = scratch_slice_mut(staged);
                found = find_staged(items, page).is_some();
            }
            assert(scratch_items(&*staged) == before);
            if !found {
                let item = PhysicalReadData {
                    addr: PhysicalAddress { address: page, page_type: addr.page_type },
                    buf: zeroed(ps),
                };
                scratch_push(staged, item);
                proof {
                    assert(pages_of(scratch_items(&*staged)) =~= pages_of(before).push(item.addr));
                    assert forall|k: int| 0 <= k < scratch_items(&*staged).len() implies (
                    #[trigger] scratch_items(&*staged)[k]).buf@.len() == ps && scratch_items(
                        &*staged,
                    )[k].addr.address.0 % (ps as u64) == 0 by {
                        if k < before.len() {
                            assert(scratch_items(&*staged)[k] == before[k]);
                        }
                    }
                }
            }
            x = x + n as u128;
        }
    }

    /// Parts a batch of reads: the buffer of each request whose page type
    /// is not cached moves to `bypass` with its address, and the pages of
    /// the others that the table does not hold are staged in `staged`.
    fn plan(
        &self,
        data: &mut [PhysicalReadData],
        staged: &mut BumpVec<'_, PhysicalReadData>,
        bypass: &mut BumpVec<'_, PhysicalReadData>,
    )
        requires
            self.wf(),
            scratch_items(old(staged)).len() == 0,
            scratch_items(old(bypass)).len() == 0,
        ensures
            whole_pages(scratch_items(final(staged)), self.page_len()),
            pages_of(scratch_items(final(staged))) == self.stage_batch(old(data)@),
            scratch_items(final(bypass)) == self.bypassed(old(data)@),
            final(data)@.len() == old(data)@.len(),
            forall|i: int|
                0 <= i < old(data)@.len() ==> (#[trigger] final(data)@[i]).addr == old(data)@[i].addr,
            forall|i: int|
                0 <= i < old(data)@.len() && self.cacheable(old(data)@[i].addr.page_type) ==> (
                #[trigger] final(data)@[i]) == old(data)@[i],
    {
        let n: usize = data.len();
        let mut i: usize = 0;
        proof {
            assert(old(data)@.take(0) =~= Seq::<PhysicalReadData>::empty());
            assert(pages_of(scratch_items(&*staged)) =~= Seq::<PhysicalAddress>::empty());
            assert(scratch_items(&*bypass) =~= Seq::<PhysicalReadData>::empty());
        }
        while i < n
            invariant
                self.wf(),
                n == data@.len(),
                n == old(data)@.len(),
                i <= n,
                whole_pages(scratch_items(&*staged), self.page_len()),
                pages_of(scratch_items(&*staged)) == self.stage_batch(old(data)@.take(i as int)),
                scratch_items(&*bypass) == self.bypassed(old(data)@.take(i as int)),
                forall|k: int| 0 <= k < n ==> (#[trigger] data@[k]).addr == old(data)@[k].addr,
                forall|k: int| i <= k < n ==> (#[trigger] data@[k]) == old(data)@[k],
                forall|k: int|
                    0 <= k < i && self.cacheable(old(data)@[k].addr.page_type) ==> (
                    #[trigger] data@[k]) == old(data)@[k],
            decreases n - i,
        {
            let addr: PhysicalAddress = data[i].addr;
            proof {
                assert(old(data)@.take(i + 1).drop_last() =~= old(data)@.take(i as int));
                assert(old(data)@.take(i + 1).last() == old(data)@[i as int]);
            }
            if self.is_cached_page_type(addr.page_type) {
                let len: usize = data[i].buf.len();
                self.stage_request(staged, addr, len);
            } else {
                let mut buf: Vec<u8> = Vec::new();
                core::mem::swap(&mut data[i].buf, &mut buf);
                let item = PhysicalReadData { addr, buf };
                assert(item == old(data)@[i as int]);
                scratch_push(bypass, item);
            }
            i += 1;
        }
        assert(old(data)@.take(n as int) =~= old(data)@);
    }
}

/// The log entries of the fetches of `pages`: a read of one page of
/// `page_size` bytes for each.
pub open spec fn fetches_of(pages: Seq<PhysicalAddress>, page_size: usize) -> ReadLog {
    Seq::new(pages.len(), |k: int| (pages[k], page_size as nat))
}

impl<Q: CacheValidator> PageCache<Q> {
    /// The bytes of each slot.
    pub open spec fn bufs(&self) -> Seq<Seq<u8>> {
        Seq::new(self.slots().len(), |i: int| self.slots()[i].buf@)
    }

    /// The bytes of each slot once the pages of `items` have been put
    /// into their slots, in order: those of the last page that went to
    /// the slot, or else the bytes that the slot holds.
    pub open spec fn bufs_after(&self, items: Seq<PhysicalReadData>) -> Seq<Seq<u8>>
        decreases items.len(),
    {
        if items.len() == 0 {
            self.bufs()
        } else {
            self.bufs_after(items.drop_last()).update(
                self.slot_of(items.last().addr.as_int()),
                items.last().buf@,
            )
        }
    }

    /// Whether one of `pages` goes to slot `i`.
    pub open spec fn targets(&self, pages: Seq<PhysicalAddress>, i: int) -> bool {
        exists|k: int| 0 <= k < pages.len() && self.slot_of((#[trigger] pages[k]).as_int()) == i
    }

    /// Byte `j` of the request `req` once it has been served: the byte of
    /// the table where the table holds the page of its address, else the
    /// byte of the first request of `staged` for that page, else, and
    /// beyond the end of the address space, the byte it was.
    pub open spec fn served_byte(
        &self,
        staged: Seq<PhysicalReadData>,
        req: PhysicalReadData,
        j: int,
    ) -> u8 {
        let x = req.addr.as_int() + j;
        let page = page_base(x, self.page_len() as int);
        if x > u64::MAX {
            req.buf@[j]
        } else if self.holds(page) {
            self.slots()[self.slot_of(page)].buf@[x - page]
        } else if is_staged(pages_of(staged), page) {
            staged[first_staged(staged, page)].buf@[x - page]
        } else {
            req.buf@[j]
        }
    }

    /// The index in the list of requests that go to the backend as they
    /// are of request `i` of `data`, where its page type is not cached.
    pub open spec fn bypass_rank(&self, data: Seq<PhysicalReadData>, i: int) -> int {
        self.bypassed(data.take(i)).len() as int
    }

    /// Fills the buffer of `req` page by page: from the table where it
    /// holds the page, else from the first request of `staged` for that
    /// page.
    fn serve_request(&self, req: &mut PhysicalReadData, staged: &[PhysicalReadData])
        requires
            self.wf(),
            whole_pages(staged@, self.page_len()),
        ensures
            final(req).addr == old(req).addr,
            final(req).buf@.len() == old(req).buf@.len(),
            forall|j: int|
                0 <= j < old(req).buf@.len() ==> (#[trigger] final(req).buf@[j])
                    == self.served_byte(staged@, *old(req), j),
    {
        let ps: usize = self.page_size;
        let len: usize = req.buf.len();
        let lo: u128 = req.addr.address.0 as u128;
        let full: u128 = lo + len as u128;
        let hi: u128 = if full > u64::MAX as u128 + 1 {
            u64::MAX as u128 + 1
        } else {
            full
        };
        let mut x: u128 = lo;
        while x < hi
            invariant
                self.wf(),
                whole_pages(staged@, self.page_len()),
                ps == self.page_len(),
                req.addr == old(req).addr,
                lo == req.addr.as_int(),
                len == req.buf@.len(),
                len == old(req).buf@.len(),
                lo <= x <= hi,
                hi == request_end(req.addr, len as int),
                hi <= u64::MAX + 1,
                forall|j: int|
                    0 <= j < len ==> (#[trigger] req.buf@[j]) == if j < x - lo {
                        self.served_byte(staged@, *old(req), j)
                    } else {
                        old(req).buf@[j]
                    },
            decreases hi - x,
        {
            let (page, n) = page_chunk(x as u64, hi, ps);
            let offset: usize = (x as u64 - page.0) as usize;
            let start: usize = (x - lo) as usize;
            let ghost before = req.buf@;
            let held: bool = self.is_valid_page(page);
            let mut found: Option<usize> = None;
            if held {
                let slot = self.lookup(page);
                copy_bytes(&mut req.buf, start, self.slots[slot].buf.as_slice(), offset, n);
            } else {
                found = find_staged(staged, page);
                match found {
                    Some(k) => {
                        copy_bytes(&mut req.buf, start, staged[k].buf.as_slice(), offset, n);
                    },
                    None => {},
                }
            }
            proof {
                lemma_page_base(x as int, ps as int);
                assert forall|j: int| 0 <= j < len implies (#[trigger] req.buf@[j]) == if j < x + n
                    - lo {
                    self.served_byte(staged@, *old(req), j)
                } else {
                    old(req).buf@[j]
                } by {
                    if start <= j < start + n {
                        lemma_same_page(page.0 as int, lo + j, ps as int);
                        assert(before[j] == old(req).buf@[j]);
                    } else {
                        assert(req.buf@[j] == before[j]);
                    }
                }
            }
            x = x + n as u128;
        }
    }

    /// Fills the buffer of each request of `data` whose page type is
    /// cached: see `serve_request`.
    fn serve(&self, data: &mut [PhysicalReadData], staged: &[PhysicalReadData])
        requires
            self.wf(),
            whole_pages(staged@, self.page_len()),
        ensures
            final(data)@.len() == old(data)@.len(),
            forall|i: int|
                0 <= i < old(data)@.len() ==> (#[trigger] final(data)@[i]).addr == old(data)@[i].addr
                    && final(data)@[i].buf@.len() == old(data)@[i].buf@.len(),
            forall|i: int|
                0 <= i < old(data)@.len() && !self.cacheable(old(data)@[i].addr.page_type) ==> (
                #[trigger] final(data)@[i]) == old(data)@[i],
            forall|i: int, j: int|
                0 <= i < old(data)@.len() && self.cacheable(old(data)@[i].addr.page_type) && 0 <= j
                    < old(data)@[i].buf@.len() ==> (#[trigger] final(data)@[i].buf@[j])
                    == self.served_byte(staged@, old(data)@[i], j),
    {
        let n: usize = data.len();
        let mut i: usize = 0;
        while i < n
            invariant
                self.wf(),
                whole_pages(staged@, self.page_len()),
                n == data@.len(),
                n == old(data)@.len(),
                i <= n,
                forall|k: int|
                    0 <= k < n ==> (#[trigger] data@[k]).addr == old(data)@[k].addr
                        && data@[k].buf@.len() == old(data)@[k].buf@.len(),
                forall|k: int| i <= k < n ==> (#[trigger] data@[k]) == old(data)@[k],
                forall|k: int|
                    0 <= k < i && !self.cacheable(old(data)@[k].addr.page_type) ==> (
                    #[trigger] data@[k]) == old(data)@[k],
                forall|k: int, j: int|
                    0 <= k < i && self.cacheable(old(data)@[k].addr.page_type) && 0 <= j < old(data)@[k].buf@.len() ==> (#[trigger] data@[k].buf@[j]) == self.served_byte(
                        staged@,
                        old(data)@[k],
                        j,
                    ),
            decreases n - i,
        {
            assert(data@[i as int] == old(data)@[i as int]);
            if self.is_cached_page_type(data[i].addr.page_type) {
                self.serve_request(&mut data[i], staged);
            }
            i += 1;
        }
    }

    /// Puts each page of `staged` into its slot, in order, and leaves the
    /// bytes that the slot held in the request.
    fn install_all(&mut self, staged: &mut [PhysicalReadData])
        requires
            old(self).wf(),
            whole_pages(old(staged)@, old(self).page_len()),
        ensures
            final(self).wf(),
            final(self).page_len() == old(self).page_len(),
            final(self).mask() == old(self).mask(),
            final(self).validator() == old(self).validator(),
            final(self).slots().len() == old(self).slots().len(),
            old(staged)@.len() == 0 ==> final(self).slots() == old(self).slots(),
            final(self).tags() == old(self).tags_after(pages_of(old(staged)@)),
            final(self).bufs() == old(self).bufs_after(old(staged)@),
    {
        let n: usize = staged.len();
        let mut k: usize = 0;
        proof {
            assert(pages_of(old(staged)@).take(0) =~= Seq::<PhysicalAddress>::empty());
            assert(old(staged)@.take(0) =~= Seq::<PhysicalReadData>::empty());
        }
        while k < n
            invariant
                self.wf(),
                k == 0 ==> self.slots() == old(self).slots(),
                self.tags() == old(self).tags_after(pages_of(old(staged)@).take(k as int)),
                self.bufs() == old(self).bufs_after(old(staged)@.take(k as int)),
                self.page_len() == old(self).page_len(),
                self.mask() == old(self).mask(),
                self.validator() == old(self).validator(),
                self.slots().len() == old(self).slots().len(),
                n == staged@.len(),
                n == old(staged)@.len(),
                k <= n,
                forall|i: int| k <= i < n ==> (#[trigger] staged@[i]) == old(staged)@[i],
                whole_pages(old(staged)@, self.page_len()),
            decreases n - k,
        {
            let page: Address = staged[k].addr.address;
            let ghost before = *self;
            assert(staged@[k as int] == old(staged)@[k as int]);
            self.install(page, &mut staged[k].buf);
            proof {
                let at = before.slot_of(page.0 as int);
                let pages = pages_of(old(staged)@);
                let items = old(staged)@;
                assert(pages.take(k + 1).drop_last() =~= pages.take(k as int));
                assert(pages.take(k + 1).last() == items[k as int].addr);
                assert(items.take(k + 1).drop_last() =~= items.take(k as int));
                assert(items.take(k + 1).last() == items[k as int]);
                assert forall|i: int| 0 <= i < self.slots().len() implies self.tags()[i]
                    == before.tags().update(at, (page, Some(before.validator().now())))[i]
                    && self.bufs()[i] == before.bufs().update(at, items[k as int].buf@)[i] by {
                    if i != at {
                        assert(self.slots()[i] == before.slots()[i]);
                    }
                }
                assert(self.tags() =~= before.tags().update(
                    at,
                    (page, Some(before.validator().now())),
                ));
                assert(self.bufs() =~= before.bufs().update(at, items[k as int].buf@));
            }
            k += 1;
        }
        proof {
            assert(pages_of(old(staged)@).take(n as int) =~= pages_of(old(staged)@));
            assert(old(staged)@.take(n as int) =~= old(staged)@);
        }
    }

    /// Hands the buffers of `bypass` back to the requests of `data` that
    /// they came from: those whose page type is not cached, in order.
    fn restore(&self, data: &mut [PhysicalReadData], bypass: &mut [PhysicalReadData])
        requires
            old(bypass)@.len() == self.bypassed(old(data)@).len(),
        ensures
            final(data)@.len() == old(data)@.len(),
            forall|i: int|
                0 <= i < old(data)@.len() ==> (#[trigger] final(data)@[i]).addr == old(data)@[i].addr,
            forall|i: int|
                0 <= i < old(data)@.len() && self.cacheable(old(data)@[i].addr.page_type) ==> (
                #[trigger] final(data)@[i]) == old(data)@[i],
            forall|i: int|
                0 <= i < old(data)@.len() && !self.cacheable(old(data)@[i].addr.page_type) ==> (
                #[trigger] final(data)@[i]).buf@ == old(bypass)@[self.bypass_rank(
                    old(data)@,
                    i,
                )].buf@,
    {
        let n: usize = data.len();
        let mut i: usize = 0;
        let mut k: usize = 0;
        proof {
            assert(old(data)@.take(0) =~= Seq::<PhysicalReadData>::empty());
        }
        while i < n
            invariant
                n == data@.len(),
                n == old(data)@.len(),
                i <= n,
                bypass@.len() == old(bypass)@.len(),
                old(bypass)@.len() == self.bypassed(old(data)@).len(),
                k == self.bypassed(old(data)@.take(i as int)).len(),
                k <= bypass@.len(),
                forall|j: int| k <= j < bypass@.len() ==> (#[trigger] bypass@[j]) == old(bypass)@[j],
                forall|j: int| 0 <= j < n ==> (#[trigger] data@[j]).addr == old(data)@[j].addr,
                forall|j: int| i <= j < n ==> (#[trigger] data@[j]) == old(data)@[j],
                forall|j: int|
                    0 <= j < i && self.cacheable(old(data)@[j].addr.page_type) ==> (#[trigger] data@[j])
                        == old(data)@[j],
                forall|j: int|
                    0 <= j < i && !self.cacheable(old(data)@[j].addr.page_type) ==> (
                    #[trigger] data@[j]).buf@ == old(bypass)@[self.bypass_rank(old(data)@, j)].buf@,
            decreases n - i,
        {
            proof {
                let orig = old(data)@;
                assert(orig.take(i + 1).drop_last() =~= orig.take(i as int));
                assert(orig.take(i + 1).last() == orig[i as int]);
                self.lemma_bypassed_prefix(orig, i + 1);
                assert(data@[i as int].addr == orig[i as int].addr);
            }
            if !self.is_cached_page_type(data[i].addr.page_type) {
                assert(bypass@[k as int] == old(bypass)@[k as int]);
                core::mem::swap(&mut data[i].buf, &mut bypass[k].buf);
                k += 1;
            }
            i += 1;
        }
    }

    /// What the table does once the backend has answered the reads of a
    /// batch with `sent`. In `bypass` lie the requests whose page type is
    /// not cached, as the backend left them, and in `staged` requests for
    /// whole pages. The buffers of `bypass` go back to the requests of
    /// `data` that they came from, whatever the answer. Where the backend
    /// failed, nothing else is done. Else each request of `data` whose
    /// page type is cached is filled page by page, from the table where
    /// it holds the page and else from `staged`, and then each page of
    /// `staged` is put into its slot with the stamp of now. The result is
    /// that of the backend.
    pub fn finish_read(
        &mut self,
        data: &mut [PhysicalReadData],
        bypass: &mut [PhysicalReadData],
        staged: &mut [PhysicalReadData],
        sent: Result<(), Error>,
    ) -> (r: Result<(), Error>)
        requires
            old(self).wf(),
            whole_pages(old(staged)@, old(self).page_len()),
            old(bypass)@.len() == old(self).bypassed(old(data)@).len(),
        ensures
            r == sent,
            final(self).wf(),
            final(self).page_len() == old(self).page_len(),
            final(self).mask() == old(self).mask(),
            final(self).validator() == old(self).validator(),
            final(self).slots().len() == old(self).slots().len(),
            final(data)@.len() == old(data)@.len(),
            forall|i: int|
                0 <= i < old(data)@.len() ==> (#[trigger] final(data)@[i]).addr == old(data)@[i].addr,
            forall|i: int|
                0 <= i < old(data)@.len() && !old(self).cacheable(old(data)@[i].addr.page_type) ==> (
                #[trigger] final(data)@[i]).buf@ == old(bypass)@[old(self).bypass_rank(
                    old(data)@,
                    i,
                )].buf@,
            old(staged)@.len() == 0 ==> final(self).slots() == old(self).slots(),
            sent is Err ==> final(self).slots() == old(self).slots(),
            sent is Err ==> forall|i: int|
                0 <= i < old(data)@.len() && old(self).cacheable(old(data)@[i].addr.page_type) ==> (
                #[trigger] final(data)@[i]) == old(data)@[i],
            sent is Ok ==> final(self).tags() == old(self).tags_after(pages_of(old(staged)@)),
            sent is Ok ==> final(self).bufs() == old(self).bufs_after(old(staged)@),
            sent is Ok ==> forall|i: int|
                0 <= i < old(data)@.len() && old(self).cacheable(old(data)@[i].addr.page_type) ==> (
                #[trigger] final(data)@[i]).buf@.len() == old(data)@[i].buf@.len(),
            sent is Ok ==> forall|i: int, j: int|
                0 <= i < old(data)@.len() && old(self).cacheable(old(data)@[i].addr.page_type) && 0
                    <= j < old(data)@[i].buf@.len() ==> (#[trigger] final(data)@[i].buf@[j]) == old(self).served_byte(old(staged)@, old(data)@[i], j),
    {
        self.restore(data, bypass);
        if sent.is_ok() {
            self.serve(data, staged);
            self.install_all(staged);
        }
        sent
    }
}

impl<Q: CacheValidator> PageCache<Q> {
    /// The slot of an address is a slot of the table.
    pub proof fn lemma_slot_in_range(&self, x: int)
        requires
            self.slots().len() > 0,
        ensures
            0 <= self.slot_of(x) < self.slots().len(),
    {
        let q = x / (self.page_len() as int);
        let n = self.slots().len() as int;
        assert(0 <= q % n < n) by (nonlinear_arith)
            requires
                n > 0,
        ;
    }

    /// Putting pages into slots keeps the number of slots.
    pub proof fn lemma_after_len(&self, items: Seq<PhysicalReadData>)
        requires
            self.slots().len() > 0,
        ensures
            self.tags_after(pages_of(items)).len() == self.slots().len(),
            self.bufs_after(items).len() == self.slots().len(),
        decreases items.len(),
    {
        if items.len() > 0 {
            assert(pages_of(items).drop_last() =~= pages_of(items.drop_last()));
            assert(pages_of(items).last() == items.last().addr);
            self.lemma_after_len(items.drop_last());
            self.lemma_slot_in_range(items.last().addr.as_int());
        }
    }

    /// A slot that none of the pages goes to keeps its page, its stamp
    /// and its bytes.
    pub proof fn lemma_untargeted(&self, items: Seq<PhysicalReadData>, i: int)
        requires
            0 <= i < self.slots().len(),
            !self.targets(pages_of(items), i),
        ensures
            self.tags_after(pages_of(items))[i] == self.tags()[i],
            self.bufs_after(items)[i] == self.slots()[i].buf@,
        decreases items.len(),
    {
        if items.len() > 0 {
            let pages = pages_of(items);
            assert(pages.drop_last() =~= pages_of(items.drop_last()));
            assert(pages.last() == items.last().addr);
            assert forall|k: int| 0 <= k < pages.drop_last().len() implies self.slot_of(
                (#[trigger] pages.drop_last()[k]).as_int(),
            ) != i by {
                assert(pages.drop_last()[k] == pages[k]);
                assert(self.slot_of(pages[k].as_int()) != i);
            }
            self.lemma_untargeted(items.drop_last(), i);
            self.lemma_after_len(items.drop_last());
            assert(self.slot_of(pages[pages.len() - 1].as_int()) != i);
        }
    }

    /// Two batches with the same addresses send equally many requests to
    /// the backend as they are.
    pub proof fn lemma_bypassed_len(&self, a: Seq<PhysicalReadData>, b: Seq<PhysicalReadData>)
        requires
            a.len() == b.len(),
            forall|i: int| 0 <= i < a.len() ==> (#[trigger] a[i]).addr == b[i].addr,
        ensures
            self.bypassed(a).len() == self.bypassed(b).len(),
        decreases a.len(),
    {
        if a.len() > 0 {
            assert forall|i: int| 0 <= i < a.drop_last().len() implies (
            #[trigger] a.drop_last()[i]).addr == b.drop_last()[i].addr by {
                assert(a.drop_last()[i] == a[i]);
                assert(b.drop_last()[i] == b[i]);
                assert(a[i].addr == b[i].addr);
            }
            self.lemma_bypassed_len(a.drop_last(), b.drop_last());
            assert(a[a.len() - 1].addr == b[a.len() - 1].addr);
        }
    }

    /// A request whose page type is not cached stands at its rank in the
    /// list of the requests that go to the backend as they are.
    pub proof fn lemma_bypassed_at(&self, data: Seq<PhysicalReadData>, i: int)
        requires
            0 <= i < data.len(),
            !self.cacheable(data[i].addr.page_type),
        ensures
            0 <= self.bypass_rank(data, i) < self.bypassed(data).len(),
            self.bypassed(data)[self.bypass_rank(data, i)] == data[i],
    {
        let head = data.take(i + 1);
        assert(head.drop_last() =~= data.take(i));
        assert(head.last() == data[i]);
        self.lemma_bypassed_prefix(data, i + 1);
        let k = self.bypass_rank(data, i);
        assert(self.bypassed(head) == self.bypassed(data.take(i)).push(data[i]));
        assert(self.bypassed(head)[k] == data[i]);
        assert(self.bypassed(data).take(self.bypassed(head).len() as int)[k] == data[i]);
    }

    /// A request that was served from a coherent table and from staged
    /// pages that hold the bytes of a memory holds the bytes of that
    /// memory, where the table holds or the pages name the page of each
    /// of its addresses.
    pub proof fn lemma_served_reads(
        &self,
        staged: Seq<PhysicalReadData>,
        req: PhysicalReadData,
        out: PhysicalReadData,
        mem: Memory,
    )
        requires
            self.wf(),
            self.coherent(mem),
            whole_pages(staged, self.page_len()),
            hold_pages(mem, staged),
            self.covered(
                pages_of(staged),
                req.addr.as_int(),
                request_end(req.addr, req.buf@.len() as int),
            ),
            out.addr == req.addr,
            out.buf@.len() == req.buf@.len(),
            forall|j: int|
                0 <= j < req.buf@.len() ==> (#[trigger] out.buf@[j]) == self.served_byte(
                    staged,
                    req,
                    j,
                ),
        ensures
            reads_from(mem, out),
    {
        let ps = self.page_len() as int;
        assert forall|j: int| 0 <= j < out.buf@.len() && byte_mapped(mem, out.addr, j) implies (
        #[trigger] out.buf@[j]) == mem[(out.addr.as_int() + j) as u64] by {
            let x = req.addr.as_int() + j;
            let page = page_base(x, ps);
            lemma_page_base(x, ps);
            assert(self.holds(page) || is_staged(pages_of(staged), page));
            if self.holds(page) {
                let i = self.slot_of(page);
                self.lemma_slot_in_range(page);
                assert(holds_page(mem, page, self.slots()[i].buf@));
                assert(self.slots()[i].buf@[x - page] == mem[(page + (x - page)) as u64]);
            } else {
                let k = choose|k: int|
                    0 <= k < pages_of(staged).len() && (#[trigger] pages_of(staged)[k]).address.0
                        == page;
                let c = first_staged(staged, page);
                assert(staged[k].addr.address.0 == page);
                assert(exists|f: int| is_first_staged(staged, page, f)) by {
                    lemma_has_first(staged, page, k);
                }
                assert(is_first_staged(staged, page, c));
                assert(holds_page(mem, staged[c].addr.as_int(), staged[c].buf@));
                assert(staged[c].buf@[x - page] == mem[(page + (x - page)) as u64]);
            }
        }
    }

    /// A coherent table into which pages that hold the bytes of a memory
    /// have been put is coherent with that memory.
    pub proof fn lemma_installed_coherent(
        &self,
        after: &Self,
        staged: Seq<PhysicalReadData>,
        mem: Memory,
    )
        requires
            self.wf(),
            self.coherent(mem),
            hold_pages(mem, staged),
            after.tags() == self.tags_after(pages_of(staged)),
            after.bufs() == self.bufs_after(staged),
            after.validator() == self.validator(),
            after.slots().len() == self.slots().len(),
        ensures
            after.coherent(mem),
    {
        self.lemma_installed_pages(staged, mem);
        assert forall|i: int| 0 <= i < after.slots().len() && after.slot_valid(i) implies holds_page(
            mem,
            after.slots()[i].address.0 as int,
            (#[trigger] after.slots()[i]).buf@,
        ) by {
            assert(after.tags()[i] == (after.slots()[i].address, after.slots()[i].stamp));
            assert(after.bufs()[i] == after.slots()[i].buf@);
        }
    }

    /// Each fresh page among those that stand in the slots once pages
    /// that hold the bytes of a memory have been put into a coherent
    /// table holds the bytes of that memory.
    proof fn lemma_installed_pages(&self, staged: Seq<PhysicalReadData>, mem: Memory)
        requires
            self.wf(),
            self.coherent(mem),
            hold_pages(mem, staged),
        ensures
            forall|i: int|
                0 <= i < self.slots().len() && (self.tags_after(pages_of(staged))[i].1 matches Some(
                    s,
                ) && self.validator().fresh(s)) ==> holds_page(
                    mem,
                    self.tags_after(pages_of(staged))[i].0.0 as int,
                    #[trigger] self.bufs_after(staged)[i],
                ),
        decreases staged.len(),
    {
        let pages = pages_of(staged);
        if staged.len() == 0 {
            assert forall|i: int|
                0 <= i < self.slots().len() && (self.tags_after(pages)[i].1 matches Some(s)
                    && self.validator().fresh(s)) implies holds_page(
                mem,
                self.tags_after(pages)[i].0.0 as int,
                #[trigger] self.bufs_after(staged)[i],
            ) by {
                assert(self.slot_valid(i));
                assert(holds_page(mem, self.slots()[i].address.0 as int, self.slots()[i].buf@));
            }
        } else {
            assert(pages.drop_last() =~= pages_of(staged.drop_last()));
            assert(pages.last() == staged.last().addr);
            assert forall|k: int| 0 <= k < staged.drop_last().len() implies holds_page(
                mem,
                (#[trigger] staged.drop_last()[k]).addr.as_int(),
                staged.drop_last()[k].buf@,
            ) by {
                assert(staged.drop_last()[k] == staged[k]);
            }
            self.lemma_installed_pages(staged.drop_last(), mem);
            self.lemma_after_len(staged.drop_last());
            let at = self.slot_of(staged.last().addr.as_int());
            self.lemma_slot_in_range(staged.last().addr.as_int());
            assert(holds_page(
                mem,
                staged[staged.len() - 1].addr.as_int(),
                staged[staged.len() - 1].buf@,
            ));
            assert forall|i: int|
                0 <= i < self.slots().len() && (self.tags_after(pages)[i].1 matches Some(s)
                    && self.validator().fresh(s)) implies holds_page(
                mem,
                self.tags_after(pages)[i].0.0 as int,
                #[trigger] self.bufs_after(staged)[i],
            ) by {
                if i != at {
                    assert(self.bufs_after(staged)[i] == self.bufs_after(staged.drop_last())[i]);
                }
            }
        }
    }

    /// Reads a batch through the table. The requests whose page type is
    /// not cached go to the backend as they are, in one read. The others
    /// are resolved page by page: a page that the table holds is copied
    /// from there, and the pages that it does not hold are fetched from
    /// the backend in one read, each once, copied to the requests that
    /// asked for them, and put into the table. No read is sent for an
    /// empty list, and a batch for which none is sent succeeds. The last
    /// answer of the backend is handed to `finish_read`, and its result
    /// is that of the call: where the backend fails the table stays as it
    /// was. The lists of the read lie in `arena`; where the arena cannot
    /// grow, the call ends as it does where memory runs out.
    pub fn cached_read<M: PhysicalMemory>(
        &mut self,
        mem: &mut M,
        data: &mut [PhysicalReadData],
        arena: &Bump,
    ) -> (r: Result<(), Error>)
        requires
            old(self).wf(),
            old(mem).inv(),
        ensures
            final(self).wf(),
            final(mem).inv(),
            final(self).page_len() == old(self).page_len(),
            final(self).mask() == old(self).mask(),
            final(self).validator() == old(self).validator(),
            final(self).slots().len() == old(self).slots().len(),
            final(mem).memory() == old(mem).memory(),
            final(mem).write_log() == old(mem).write_log(),
            final(mem).reads_cannot_fail() == old(mem).reads_cannot_fail(),
            final(mem).writes_cannot_fail() == old(mem).writes_cannot_fail(),
            old(mem).reads_cannot_fail() ==> r is Ok,
            same_shape(old(data)@, final(data)@),
            old(mem).faithful() ==> final(mem).faithful(),
            old(mem).faithful() && old(self).coherent(old(mem).memory()) ==> final(self).coherent(
                old(mem).memory(),
            ),
            old(self).bypassed(old(data)@).len() == 0 && old(self).stage_batch(old(data)@).len()
                == 0 ==> r is Ok,
            old(self).bypassed(old(data)@).len() == 0 ==> final(mem).read_log() == old(mem).read_log() + fetches_of(old(self).stage_batch(old(data)@), old(self).page_len()),
            old(self).stage_batch(old(data)@).len() == 0 ==> final(self).slots() == old(self).slots(),
            r is Ok && old(mem).faithful() && old(self).coherent(old(mem).memory())
                ==> all_read_from(old(mem).memory(), final(data)@),
            r is Ok ==> final(mem).read_log() == old(mem).read_log() + requests_of(
                old(self).bypassed(old(data)@),
            ) + fetches_of(old(self).stage_batch(old(data)@), old(self).page_len()),
            r is Ok ==> final(self).tags() == old(self).tags_after(
                old(self).stage_batch(old(data)@),
            ),
            r is Ok ==> forall|i: int|
                0 <= i < old(self).slots().len() && !old(self).targets(
                    old(self).stage_batch(old(data)@),
                    i,
                ) ==> (#[trigger] final(self).slots()[i]).buf@ == old(self).slots()[i].buf@,
            r is Err ==> final(self).slots() == old(self).slots(),
            r is Err ==> final(mem).read_log() == old(mem).read_log() + requests_of(
                old(self).bypassed(old(data)@),
            ) || final(mem).read_log() == old(mem).read_log() + requests_of(
                old(self).bypassed(old(data)@),
            ) + fetches_of(old(self).stage_batch(old(data)@), old(self).page_len()),
            r is Err ==> forall|i: int|
                0 <= i < old(data)@.len() && old(self).cacheable(old(data)@[i].addr.page_type) ==> (
                #[trigger] final(data)@[i]) == old(data)@[i],
    {
        let ghost orig = data@;
        let ghost memory = mem.memory();
        let ghost log = mem.read_log();
        let ghost trusted = mem.faithful() && self.coherent(memory);
        let ghost before = *self;
        let mut bypass = scratch_new(arena);
        let mut staged = scratch_new(arena);
        self.plan(data, &mut staged, &mut bypass);
        let ghost planned = data@;
        let bypass_items = scratch_slice_mut(&mut bypass);
        let staged_items = scratch_slice_mut(&mut staged);
        let ghost pages = staged_items@;
        let mut sent: Result<(), Error> = Ok(());
        if bypass_items.len() > 0 {
            sent = mem.phys_read_raw_list(bypass_items);
        }
        let ghost log_mid = mem.read_log();
        proof {
            assert(log_mid =~= log + requests_of(self.bypassed(orig)));
        }
        let fetch: bool = sent.is_ok() && staged_items.len() > 0;
        if fetch {
            sent = mem.phys_read_raw_list(staged_items);
        }
        let ghost answered = bypass_items@;
        let ghost fetched = staged_items@;
        proof {
            assert(requests_of(pages) =~= fetches_of(self.stage_batch(orig), self.page_len()));
            if fetch {
                assert(mem.read_log() =~= log + requests_of(self.bypassed(orig)) + fetches_of(
                    self.stage_batch(orig),
                    self.page_len(),
                ));
            } else if sent is Ok {
                assert(mem.read_log() =~= log + requests_of(self.bypassed(orig)) + fetches_of(
                    self.stage_batch(orig),
                    self.page_len(),
                ));
            }
            if self.bypassed(orig).len() == 0 {
                assert(mem.read_log() =~= log + fetches_of(
                    self.stage_batch(orig),
                    self.page_len(),
                ));
            }
            self.lemma_bypassed_len(planned, orig);
            assert(pages_of(fetched) =~= pages_of(pages));
        }
        let r = self.finish_read(data, bypass_items, staged_items, sent);
        proof {
            assert forall|i: int| 0 <= i < orig.len() implies (#[trigger] data@[i]).addr
                == orig[i].addr && data@[i].buf@.len() == orig[i].buf@.len() by {
                if !before.cacheable(orig[i].addr.page_type) {
                    before.lemma_bypassed_len(planned.take(i), orig.take(i));
                    before.lemma_bypassed_at(orig, i);
                }
            }
            if r is Ok {
                assert forall|i: int|
                    0 <= i < before.slots().len() && !before.targets(
                        before.stage_batch(orig),
                        i,
                    ) implies (#[trigger] self.slots()[i]).buf@ == before.slots()[i].buf@ by {
                    before.lemma_untargeted(fetched, i);
                    assert(self.bufs()[i] == self.slots()[i].buf@);
                }
            }
            if trusted {
                if r is Ok {
                    assert(hold_pages(memory, fetched)) by {
                        assert forall|k: int| 0 <= k < fetched.len() implies holds_page(
                            memory,
                            (#[trigger] fetched[k]).addr.as_int(),
                            fetched[k].buf@,
                        ) by {
                            assert(fetch);
                            assert(reads_from(memory, fetched[k]));
                        }
                    }
                    before.lemma_installed_coherent(self, fetched, memory);
                    assert forall|i: int| 0 <= i < data@.len() implies reads_from(
                        memory,
                        #[trigger] data@[i],
                    ) by {
                        if before.cacheable(orig[i].addr.page_type) {
                            before.lemma_batch_covers(orig, i);
                            assert(planned[i] == orig[i]);
                            before.lemma_served_reads(fetched, orig[i], data@[i], memory);
                        } else {
                            before.lemma_bypassed_len(planned.take(i), orig.take(i));
                            before.lemma_bypassed_at(orig, i);
                            let k = before.bypass_rank(orig, i);
                            assert(reads_from(memory, answered[k]));
                            assert(answered[k].addr == orig[i].addr);
                        }
                    }
                }
            }
        }
        r
    }
}

impl<Q: CacheValidator> PageCache<Q> {
    /// An address within the page of a slot that holds a page lies in
    /// that page, and the table holds the page if the slot is fresh.
    pub proof fn lemma_slot_page(&self, i: int, x: int)
        requires
            self.wf(),
            0 <= i < self.slots().len(),
            self.slots()[i].stamp is Some,
            self.slots()[i].address.0 <= x < self.slots()[i].address.0 + self.page_len(),
        ensures
            page_base(x, self.page_len() as int) == self.slots()[i].address.0,
            self.slot_of(self.slots()[i].address.0 as int) == i,
            self.slot_valid(i) ==> self.holds(page_base(x, self.page_len() as int)),
    {
        lemma_same_page(self.slots()[i].address.0 as int, x, self.page_len() as int);
    }

    /// A table with the pages and stamps of another, and with its policy,
    /// holds the same pages.
    pub proof fn lemma_same_tags(&self, other: &Self)
        requires
            self.wf(),
            self.tags() == other.tags(),
            self.validator() == other.validator(),
            self.page_len() == other.page_len(),
        ensures
            self.slots().len() == other.slots().len(),
            forall|i: int|
                0 <= i < self.slots().len() ==> (#[trigger] self.slot_valid(i)) == other.slot_valid(i),
            forall|page: int| (#[trigger] self.holds(page)) == other.holds(page),
    {
        assert(self.slots().len() == self.tags().len());
        assert(other.slots().len() == other.tags().len());
        assert forall|i: int| 0 <= i < self.slots().len() implies self.slots()[i].stamp
            == other.slots()[i].stamp && self.slots()[i].address == other.slots()[i].address by {
            assert(self.tags()[i] == other.tags()[i]);
        }
        assert forall|page: int| (#[trigger] self.holds(page)) == other.holds(page) by {
            let i = self.slot_of(page);
            assert(0 <= i < self.slots().len()) by (nonlinear_arith)
                requires
                    i == (page / (self.page_len() as int)) % (self.slots().len() as int),
                    self.slots().len() > 0,
            ;
            assert(other.slot_of(page) == i);
            assert(self.tags()[i] == other.tags()[i]);
        }
    }

    /// Whether the write `w` is copied over byte `j` of slot `i`: the page
    /// type of the write is cached, the slot holds a fresh page, and the
    /// write stores a byte at the address of that byte.
    pub open spec fn patches(&self, i: int, j: int, w: PhysicalWriteData) -> bool {
        &&& self.cacheable(w.addr.page_type)
        &&& self.slot_valid(i)
        &&& w.addr.as_int() <= self.slots()[i].address.0 + j < request_end(
            w.addr,
            w.buf@.len() as int,
        )
    }

    /// Byte `j` of slot `i` once the write `w` has been copied into the
    /// table.
    pub open spec fn cached_byte_after_one(&self, i: int, j: int, w: PhysicalWriteData) -> u8 {
        if self.patches(i, j, w) {
            w.buf@[self.slots()[i].address.0 + j - w.addr.as_int()]
        } else {
            self.slots()[i].buf@[j]
        }
    }

    /// Byte `j` of slot `i` once the writes of `data` have been copied
    /// into the table in order: the byte of the last write that is copied
    /// over it, or else the byte that the slot holds.
    pub open spec fn cached_byte_after(
        &self,
        i: int,
        j: int,
        data: Seq<PhysicalWriteData>,
    ) -> u8
        decreases data.len(),
    {
        if data.len() == 0 {
            self.slots()[i].buf@[j]
        } else if self.patches(i, j, data.last()) {
            data.last().buf@[self.slots()[i].address.0 + j - data.last().addr.as_int()]
        } else {
            self.cached_byte_after(i, j, data.drop_last())
        }
    }

    /// Whether each write of `data` has a cached page type or touches no
    /// page that the table holds.
    pub open spec fn admits(&self, data: Seq<PhysicalWriteData>) -> bool {
        forall|k: int|
            0 <= k < data.len() ==> self.cacheable((#[trigger] data[k]).addr.page_type)
                || self.untouched(data[k].addr, data[k].buf@.len() as usize)
    }

    /// Copies the bytes of the write `w`, whose page type is cached, into
    /// each page that the write touches and the table holds. A page that
    /// the table does not hold stays out, and no slot changes its page or
    /// its stamp.
    pub(crate) fn write_back(&mut self, w: &PhysicalWriteData)
        requires
            old(self).wf(),
            old(self).cacheable(w.addr.page_type),
        ensures
            final(self).wf(),
            final(self).page_len() == old(self).page_len(),
            final(self).mask() == old(self).mask(),
            final(self).validator() == old(self).validator(),
            final(self).slots().len() == old(self).slots().len(),
            final(self).tags() == old(self).tags(),
            forall|i: int, j: int|
                0 <= i < old(self).slots().len() && 0 <= j < old(self).page_len() ==> (
                #[trigger] final(self).slots()[i].buf@[j]) == old(self).cached_byte_after_one(
                    i,
                    j,
                    *w,
                ),
    {
        let ps: usize = self.page_size;
        let len: usize = w.buf.len();
        let lo: u128 = w.addr.address.0 as u128;
        let full: u128 = lo + len as u128;
        let hi: u128 = if full > u64::MAX as u128 + 1 {
            u64::MAX as u128 + 1
        } else {
            full
        };
        let mut x: u128 = lo;
        while x < hi
            invariant
                self.wf(),
                old(self).wf(),
                ps == self.page_len(),
                self.page_len() == old(self).page_len(),
                self.mask() == old(self).mask(),
                self.validator() == old(self).validator(),
                self.slots().len() == old(self).slots().len(),
                self.tags() == old(self).tags(),
                len == w.buf@.len(),
                lo == w.addr.as_int(),
                lo <= x <= hi,
                hi == request_end(w.addr, len as int),
                hi <= u64::MAX + 1,
                forall|i: int, j: int|
                    0 <= i < self.slots().len() && 0 <= j < ps ==> (
                    #[trigger] self.slots()[i].buf@[j]) == if old(self).slot_valid(i) && lo <= old(self).slots()[i].address.0 + j < x {
                        w.buf@[old(self).slots()[i].address.0 + j - lo]
                    } else {
                        old(self).slots()[i].buf@[j]
                    },
            decreases hi - x,
        {
            let (page, n) = page_chunk(x as u64, hi, ps);
            let offset: usize = (x as u64 - page.0) as usize;
            let start: usize = (x - lo) as usize;
            let ghost before = *self;
            proof {
                lemma_page_base(x as int, ps as int);
                old(self).lemma_same_tags(&before);
                assert forall|i: int| 0 <= i < before.slots().len() implies before.slots()[i].address
                    == old(self).slots()[i].address && before.slots()[i].stamp == old(self).slots()[i].stamp by {
                    assert(before.tags()[i] == old(self).tags()[i]);
                }
            }
            let held: bool = self.is_valid_page(page);
            if held {
                let slot = self.lookup(page);
                self.patch(slot, offset, slice_subrange(w.buf, start, start + n));
                proof {
                    assert(self.tags() =~= before.tags());
                }
            }
            proof {
                let at = before.slot_of(page.0 as int);
                assert forall|i: int, j: int| 0 <= i < self.slots().len() && 0 <= j < ps implies (
                #[trigger] self.slots()[i].buf@[j]) == if old(self).slot_valid(i) && lo <= old(self).slots()[i].address.0 + j < x + n {
                    w.buf@[old(self).slots()[i].address.0 + j - lo]
                } else {
                    old(self).slots()[i].buf@[j]
                } by {
                    let a = old(self).slots()[i].address.0 as int;
                    let was = before.slots()[i].buf@[j];
                    assert(was == if old(self).slot_valid(i) && lo <= a + j < x {
                        w.buf@[a + j - lo]
                    } else {
                        old(self).slots()[i].buf@[j]
                    });
                    assert(before.slot_valid(i) == old(self).slot_valid(i));
                    if before.slot_valid(i) && x <= a + j < x + n {
                        before.lemma_slot_page(i, a + j);
                        lemma_same_page(page.0 as int, a + j, ps as int);
                        assert(a == page.0);
                        assert(at == i);
                        assert(before.holds(page.0 as int));
                        assert(held);
                        assert(offset <= j < offset + n);
                        assert(self.slots()[i].buf@[j] == w.buf@[start + j - offset]);
                    } else if held && i == at {
                        assert(before.slots()[i].address.0 == page.0);
                        assert(before.slot_valid(i));
                        assert(!(offset <= j < offset + n));
                        assert(self.slots()[i].buf@[j] == was);
                    } else {
                        if held {
                            assert(self.slots()[i] == before.slots()[i]);
                        }
                        assert(self.slots()[i].buf@[j] == was);
                    }
                }
            }
            x = x + n as u128;
        }
    }

    /// What the table does once the backend has answered a batch of
    /// writes with `sent`. Where the backend failed, the table stays as it
    /// is. Else each write whose page type is cached is copied, in the
    /// order of the batch, into the pages it touches that the table
    /// holds. No slot changes its page or its stamp. The result is that
    /// of the backend.
    pub fn cached_write(&mut self, data: &[PhysicalWriteData], sent: Result<(), Error>) -> (r:
        Result<(), Error>)
        requires
            old(self).wf(),
        ensures
            r == sent,
            final(self).wf(),
            final(self).page_len() == old(self).page_len(),
            final(self).mask() == old(self).mask(),
            final(self).validator() == old(self).validator(),
            final(self).slots().len() == old(self).slots().len(),
            final(self).tags() == old(self).tags(),
            sent is Err ==> final(self).slots() == old(self).slots(),
            sent is Ok ==> forall|i: int, j: int|
                0 <= i < old(self).slots().len() && 0 <= j < old(self).page_len() ==> (
                #[trigger] final(self).slots()[i].buf@[j]) == old(self).cached_byte_after(
                    i,
                    j,
                    data@,
                ),
    {
        if sent.is_err() {
            return sent;
        }
        let n: usize = data.len();
        let mut k: usize = 0;
        proof {
            assert(data@.take(0) =~= Seq::<PhysicalWriteData>::empty());
        }
        while k < n
            invariant
                n == data@.len(),
                k <= n,
                self.wf(),
                old(self).wf(),
                self.page_len() == old(self).page_len(),
                self.mask() == old(self).mask(),
                self.validator() == old(self).validator(),
                self.slots().len() == old(self).slots().len(),
                self.tags() == old(self).tags(),
                forall|i: int, j: int|
                    0 <= i < old(self).slots().len() && 0 <= j < old(self).page_len() ==> (
                    #[trigger] self.slots()[i].buf@[j]) == old(self).cached_byte_after(
                        i,
                        j,
                        data@.take(k as int),
                    ),
            decreases n - k,
        {
            let ghost before = *self;
            let ghost w = data@[k as int];
            proof {
                assert(data@.take(k + 1).drop_last() =~= data@.take(k as int));
                assert(data@.take(k + 1).last() == w);
                old(self).lemma_same_tags(&before);
                assert forall|i: int| 0 <= i < before.slots().len() implies before.slots()[i].address
                    == old(self).slots()[i].address by {
                    assert(before.tags()[i] == old(self).tags()[i]);
                }
            }
            if self.is_cached_page_type(data[k].addr.page_type) {
                self.write_back(&data[k]);
            }
            proof {
                assert forall|i: int, j: int|
                    0 <= i < old(self).slots().len() && 0 <= j < old(self).page_len() implies (
                #[trigger] self.slots()[i].buf@[j]) == old(self).cached_byte_after(
                    i,
                    j,
                    data@.take(k + 1),
                ) by {
                    assert(before.slots()[i].buf@[j] == old(self).cached_byte_after(
                        i,
                        j,
                        data@.take(k as int),
                    ));
                    assert(before.slot_valid(i) == old(self).slot_valid(i));
                    assert(before.patches(i, j, w) == old(self).patches(i, j, w));
                    if before.cacheable(w.addr.page_type) {
                        assert(self.slots()[i].buf@[j] == before.cached_byte_after_one(i, j, w));
                    }
                }
            }
            k += 1;
        }
        proof {
            assert(data@.take(n as int) =~= data@);
        }
        sent
    }

    /// A fresh page of a coherent table holds, once admitted writes have
    /// been copied into the table, the bytes of the memory with the same
    /// writes applied.
    proof fn lemma_cached_byte(&self, i: int, j: int, data: Seq<PhysicalWriteData>, mem: Memory)
        requires
            self.wf(),
            self.coherent(mem),
            self.admits(data),
            0 <= i < self.slots().len(),
            self.slot_valid(i),
            0 <= j < self.page_len(),
            self.slots()[i].address.0 + j <= u64::MAX,
            mem.dom().contains((self.slots()[i].address.0 + j) as u64),
        ensures
            self.cached_byte_after(i, j, data) == byte_after_writes(
                mem,
                data,
                (self.slots()[i].address.0 + j) as u64,
            ),
        decreases data.len(),
    {
        let a = self.slots()[i].address.0 as int;
        let x = (a + j) as u64;
        if data.len() == 0 {
            assert(holds_page(mem, a, self.slots()[i].buf@));
        } else {
            let w = data.last();
            vstd::slice::axiom_spec_len(w.buf);
            assert forall|k: int| 0 <= k < data.drop_last().len() implies self.cacheable(
                (#[trigger] data.drop_last()[k]).addr.page_type,
            ) || self.untouched(
                data.drop_last()[k].addr,
                data.drop_last()[k].buf@.len() as usize,
            ) by {
                assert(data.drop_last()[k] == data[k]);
            }
            if !self.patches(i, j, w) {
                if write_holds(w, x) {
                    assert(w.addr.as_int() <= x < request_end(w.addr, w.buf@.len() as int));
                    assert(self.cacheable(data[data.len() - 1].addr.page_type) || self.untouched(
                        w.addr,
                        w.buf@.len() as usize,
                    ));
                    self.lemma_slot_page(i, a + j);
                    assert(!self.holds(page_base(x as int, self.page_len() as int)));
                }
                self.lemma_cached_byte(i, j, data.drop_last(), mem);
            }
        }
    }

    /// Write-back keeps the table coherent: where `self` is coherent with
    /// `mem` and admits the writes of `data`, a table with the pages,
    /// stamps and policy of `self` whose bytes are those of `self` once
    /// the writes have been copied in is coherent with `mem` once the
    /// writes have been applied.
    pub proof fn lemma_write_back_coherent(
        &self,
        after: &Self,
        data: Seq<PhysicalWriteData>,
        mem: Memory,
    )
        requires
            self.wf(),
            self.coherent(mem),
            self.admits(data),
            after.tags() == self.tags(),
            after.validator() == self.validator(),
            after.page_len() == self.page_len(),
            forall|i: int| 0 <= i < after.slots().len() ==> (#[trigger] after.slots()[i]).buf@.len()
                == self.page_len(),
            forall|i: int, j: int|
                0 <= i < self.slots().len() && 0 <= j < self.page_len() ==> (
                #[trigger] after.slots()[i].buf@[j]) == self.cached_byte_after(i, j, data),
        ensures
            after.coherent(apply_writes(mem, data)),
    {
        let next = apply_writes(mem, data);
        self.lemma_same_tags(after);
        assert forall|i: int| 0 <= i < after.slots().len() && after.slot_valid(i) implies holds_page(
            next,
            after.slots()[i].address.0 as int,
            (#[trigger] after.slots()[i]).buf@,
        ) by {
            assert(after.tags()[i] == self.tags()[i]);
            assert(self.slot_valid(i));
            let a = after.slots()[i].address.0 as int;
            assert forall|j: int|
                0 <= j < after.slots()[i].buf@.len() && a + j <= u64::MAX && next.dom().contains(
                    (a + j) as u64,
                ) implies (#[trigger] after.slots()[i].buf@[j]) == next[(a + j) as u64] by {
                self.lemma_cached_byte(i, j, data, mem);
            }
        }
    }
}

impl<Q: CacheValidator> PageCache<Q> {
    /// A range whose pages the table holds stages nothing.
    pub proof fn lemma_stage_hits(
        &self,
        staged: Seq<PhysicalAddress>,
        page_type: PageType,
        x: int,
        hi: int,
    )
        requires
            forall|y: int| x <= y < hi ==> self.holds(#[trigger] page_base(y, self.page_len() as int)),
        ensures
            self.stage_range(staged, page_type, x, hi) == staged,
        decreases hi - x,
    {
        if x >= hi || x < 0 || self.page_len() == 0 {
        } else {
            lemma_page_base(x, self.page_len() as int);
            assert(self.holds(page_base(x, self.page_len() as int)));
            self.lemma_stage_hits(staged, page_type, chunk_end(x, hi, self.page_len() as int), hi);
        }
    }

    /// A read of pages that the table holds reaches no backend: a batch
    /// of requests whose page types are cached, and all of whose pages
    /// the table holds, sends nothing on as it is and fetches no page.
    /// So a page that was written while the table held it is read back
    /// from the table as long as it is fresh.
    pub proof fn lemma_hits_fetch_nothing(&self, data: Seq<PhysicalReadData>)
        requires
            forall|i: int|
                0 <= i < data.len() ==> self.cacheable((#[trigger] data[i]).addr.page_type)
                    && self.covered(
                    Seq::empty(),
                    data[i].addr.as_int(),
                    request_end(data[i].addr, data[i].buf@.len() as int),
                ),
        ensures
            self.stage_batch(data) == Seq::<PhysicalAddress>::empty(),
            self.bypassed(data) == Seq::<PhysicalReadData>::empty(),
        decreases data.len(),
    {
        if data.len() > 0 {
            let last = data.last();
            assert forall|i: int| 0 <= i < data.drop_last().len() implies self.cacheable(
                (#[trigger] data.drop_last()[i]).addr.page_type,
            ) && self.covered(
                Seq::empty(),
                data.drop_last()[i].addr.as_int(),
                request_end(data.drop_last()[i].addr, data.drop_last()[i].buf@.len() as int),
            ) by {
                assert(data.drop_last()[i] == data[i]);
            }
            self.lemma_hits_fetch_nothing(data.drop_last());
            assert(self.cacheable(data[data.len() - 1].addr.page_type));
            let lo = last.addr.as_int();
            let hi = request_end(last.addr, last.buf@.len() as int);
            assert forall|y: int| lo <= y < hi implies self.holds(
                #[trigger] page_base(y, self.page_len() as int),
            ) by {
                assert(!is_staged(
                    Seq::<PhysicalAddress>::empty(),
                    page_base(y, self.page_len() as int),
                ));
            }
            self.lemma_stage_hits(Seq::empty(), last.addr.page_type, lo, hi);
        }
    }

    /// A read of a page that the table does not hold, because the page
    /// has gone stale or was never there, fetches that page once: a
    /// request with a cached page type that lies within one page which
    /// the table does not hold sends nothing on as it is and fetches
    /// exactly that page.
    pub proof fn lemma_miss_fetches_once(&self, req: PhysicalReadData)
        requires
            self.page_len() > 0,
            self.cacheable(req.addr.page_type),
            req.buf@.len() > 0,
            req.addr.as_int() + req.buf@.len() <= page_base(
                req.addr.as_int(),
                self.page_len() as int,
            ) + self.page_len(),
            req.addr.as_int() + req.buf@.len() <= u64::MAX + 1,
            !self.holds(page_base(req.addr.as_int(), self.page_len() as int)),
        ensures
            self.stage_batch(seq![req]) == seq![
                PhysicalAddress {
                    address: Address(
                        page_base(req.addr.as_int(), self.page_len() as int) as u64,
                    ),
                    page_type: req.addr.page_type,
                },
            ],
            self.bypassed(seq![req]) == Seq::<PhysicalReadData>::empty(),
    {
        let ps = self.page_len() as int;
        let lo = req.addr.as_int();
        let hi = request_end(req.addr, req.buf@.len() as int);
        let page = page_base(lo, ps);
        let one = seq![req];
        let none = Seq::<PhysicalAddress>::empty();
        lemma_page_base(lo, ps);
        assert(one.last() == req);
        assert(one.drop_last() =~= Seq::<PhysicalReadData>::empty());
        assert(self.stage_batch(one.drop_last()) == none);
        assert(self.bypassed(one.drop_last()) == Seq::<PhysicalReadData>::empty());
        assert(!is_staged(none, page));
        let first = self.stage_page(none, req.addr.page_type, page);
        assert(chunk_end(lo, hi, ps) == hi);
        assert(self.stage_range(first, req.addr.page_type, hi, hi) == first);
        assert(self.stage_range(none, req.addr.page_type, lo, hi) == first);
        assert(first =~= seq![PhysicalAddress {
            address: Address(page as u64),
            page_type: req.addr.page_type,
        }]);
    }

    /// A request whose page type is not cached goes to the backend as it
    /// is, whatever the table holds and however often it is sent.
    pub proof fn lemma_uncached_bypasses(&self, data: Seq<PhysicalReadData>, i: int)
        requires
            0 <= i < data.len(),
            !self.cacheable(data[i].addr.page_type),
        ensures
            exists|k: int|
                0 <= k < self.bypassed(data).len() && #[trigger] self.bypassed(data)[k] == data[i],
        decreases data.len(),
    {
        let out = self.bypassed(data);
        if i == data.len() - 1 {
            assert(out[out.len() - 1] == data[i]);
        } else {
            assert(data.drop_last()[i] == data[i]);
            self.lemma_uncached_bypasses(data.drop_last(), i);
            let k = choose|k: int|
                0 <= k < self.bypassed(data.drop_last()).len() && #[trigger] self.bypassed(
                    data.drop_last(),
                )[k] == data[i];
            assert(out[k] == data[i]);
        }
    }
}

impl<Q: CacheValidator> PageCache<Q> {
    /// What the table does once the backend has answered the read of the
    /// page that starts at `page` with `sent`; `buf` is the buffer of that
    /// read. Where the backend failed, nothing is done. Else the page goes
    /// into its slot as `install` puts it there. The result is that of
    /// the backend.
    pub fn finish_fill(&mut self, page: Address, buf: &mut Vec<u8>, sent: Result<(), Error>) -> (r:
        Result<(), Error>)
        requires
            old(self).wf(),
            page.0 % (old(self).page_len() as u64) == 0,
            old(buf)@.len() == old(self).page_len(),
        ensures
            r == sent,
            final(self).wf(),
            final(self).page_len() == old(self).page_len(),
            final(self).mask() == old(self).mask(),
            final(self).validator() == old(self).validator(),
            final(self).slots().len() == old(self).slots().len(),
            sent is Err ==> final(self).slots() == old(self).slots() && final(buf)@ == old(buf)@,
            sent is Ok ==> {
                let at = old(self).slot_of(page.0 as int);
                &&& forall|i: int|
                    0 <= i < old(self).slots().len() && i != at ==> (#[trigger] final(self).slots()[i]) == old(self).slots()[i]
                &&& final(self).slots()[at].address == page
                &&& final(self).slots()[at].stamp == Some(old(self).validator().now())
                &&& final(self).slots()[at].buf@ == old(buf)@
                &&& final(buf)@ == old(self).slots()[at].buf@
            },
    {
        if sent.is_ok() {
            self.install(page, buf);
        }
        sent
    }

    /// Fetches the page that holds `addr` from the backend, in one read
    /// of one page, and hands the answer to `finish_fill`, whose result
    /// is that of the call: the page goes into its slot with the stamp of
    /// now, or, where the backend fails, the table stays as it was.
    pub fn fill<M: PhysicalMemory>(&mut self, addr: PhysicalAddress, mem: &mut M) -> (r: Result<
        (),
        Error,
    >)
        requires
            old(self).wf(),
            old(mem).inv(),
        ensures
            final(self).wf(),
            final(mem).inv(),
            final(self).page_len() == old(self).page_len(),
            final(self).mask() == old(self).mask(),
            final(self).validator() == old(self).validator(),
            final(self).slots().len() == old(self).slots().len(),
            final(mem).memory() == old(mem).memory(),
            final(mem).write_log() == old(mem).write_log(),
            final(mem).reads_cannot_fail() == old(mem).reads_cannot_fail(),
            final(mem).writes_cannot_fail() == old(mem).writes_cannot_fail(),
            old(mem).reads_cannot_fail() ==> r is Ok,
            final(mem).read_log() == old(mem).read_log().push(
                (
                    PhysicalAddress {
                        address: Address(
                            page_base(addr.as_int(), old(self).page_len() as int) as u64,
                        ),
                        page_type: addr.page_type,
                    },
                    old(self).page_len() as nat,
                ),
            ),
            old(mem).faithful() ==> final(mem).faithful(),
            old(mem).faithful() && old(self).coherent(old(mem).memory()) ==> final(self).coherent(
                old(mem).memory(),
            ),
            r is Ok ==> final(self).tags() == old(self).tags().update(
                old(self).slot_of(page_base(addr.as_int(), old(self).page_len() as int)),
                (
                    Address(page_base(addr.as_int(), old(self).page_len() as int) as u64),
                    Some(old(self).validator().now()),
                ),
            ),
            r is Ok ==> forall|i: int|
                0 <= i < old(self).slots().len() && i != old(self).slot_of(
                    page_base(addr.as_int(), old(self).page_len() as int),
                ) ==> (#[trigger] final(self).slots()[i]) == old(self).slots()[i],
            r is Ok && old(mem).faithful() ==> holds_page(
                old(mem).memory(),
                page_base(addr.as_int(), old(self).page_len() as int),
                final(self).slots()[old(self).slot_of(
                    page_base(addr.as_int(), old(self).page_len() as int),
                )].buf@,
            ),
            r is Err ==> final(self).slots() == old(self).slots(),
    {
        let ghost memory = mem.memory();
        let ghost log = mem.read_log();
        let ghost trusted = mem.faithful() && self.coherent(memory);
        let ghost honest = mem.faithful();
        let page: Address = addr.address.as_page_aligned(self.page_size);
        let request = PhysicalReadData {
            addr: PhysicalAddress { address: page, page_type: addr.page_type },
            buf: zeroed(self.page_size),
        };
        let mut one: Vec<PhysicalReadData> = Vec::new();
        one.push(request);
        let sent = mem.phys_read_raw_list(one.as_mut_slice());
        proof {
            assert(requests_of(seq![request]) =~= seq![(request.addr, self.page_len() as nat)]);
            assert(mem.read_log() =~= log.push((request.addr, self.page_len() as nat)));
        }
        let ghost before = *self;
        let ghost fetched = one@[0].buf@;
        assert(one@[0].addr == request.addr);
        let r = self.finish_fill(page, &mut one[0].buf, sent);
        proof {
            if r is Ok {
                let at = before.slot_of(page.0 as int);
                before.lemma_slot_in_range(page.0 as int);
                assert forall|i: int| 0 <= i < self.slots().len() implies self.tags()[i]
                    == before.tags().update(at, (page, Some(before.validator().now())))[i] by {
                    if i != at {
                        assert(self.slots()[i] == before.slots()[i]);
                    }
                }
                assert(self.tags() =~= before.tags().update(
                    at,
                    (page, Some(before.validator().now())),
                ));
                if honest {
                    assert(holds_page(memory, page.0 as int, fetched));
                }
                if trusted {
                    assert forall|i: int|
                        0 <= i < self.slots().len() && self.slot_valid(i) implies holds_page(
                        memory,
                        self.slots()[i].address.0 as int,
                        (#[trigger] self.slots()[i]).buf@,
                    ) by {
                        if i != at {
                            assert(self.slots()[i] == before.slots()[i]);
                            assert(before.slot_valid(i));
                        }
                    }
                }
            }
        }
        r
    }
}

} // verus!
