//! A page cache in front of a backend.

use vstd::prelude::*;
use bumpalo::Bump;
use crate::error::Error;
use crate::page_cache::{fetches_of, PageCache};
use crate::phys_mem::{
    byte_mapped, lemma_same_bytes, reads_from, requests_of, writes_of, Memory, PhysicalMemory,
    PhysicalReadData, PhysicalWriteData, ReadLog, WriteLog,
};
use crate::scratch::{arena_new, arena_reset};
use crate::types::PhysicalAddress;
use crate::validator::CacheValidator;

verus! {

/// A backend `T` seen through a page cache. Reads are answered from the
/// cache where it holds the page and fetch the page else; writes go to the
/// backend and are copied into the pages that the cache holds.
///
/// The memory of the overlay is that of its backend. The overlay is
/// faithful while the backend is and the cache is coherent with it. A
/// write whose page type is not cached leaves the cache as it is, so it
/// keeps the overlay faithful only where the cache holds none of the
/// pages it touches.
pub struct CachedMemoryAccess<'a, T: PhysicalMemory, Q: CacheValidator> {
    mem: &'a mut T,
    cache: PageCache<Q>,
    arena: Bump,
    log: Ghost<ReadLog>,
    written: Ghost<WriteLog>,
}

impl<'a, T: PhysicalMemory, Q: CacheValidator> CachedMemoryAccess<'a, T, Q> {
    /// The backend.
    pub closed spec fn backend(&self) -> T {
        *self.mem
    }

    /// The cache.
    pub closed spec fn cache(&self) -> PageCache<Q> {
        self.cache
    }

    /// The reads that the overlay has been asked for.
    pub closed spec fn log(&self) -> ReadLog {
        self.log@
    }

    /// The writes that the overlay has been asked for.
    pub closed spec fn written(&self) -> WriteLog {
        self.written@
    }

    /// An overlay of `cache` over `mem`.
    pub fn with(mem: &'a mut T, cache: PageCache<Q>) -> (r: Self)
        ensures
            r.backend() == *old(mem),
            r.cache() == cache,
            r.log() == Seq::<(PhysicalAddress, nat)>::empty(),
            r.written() == Seq::<(PhysicalAddress, Seq<u8>)>::empty(),
    {
        CachedMemoryAccess {
            mem,
            cache,
            arena: arena_new(),
            log: Ghost(Seq::empty()),
            written: Ghost(Seq::empty()),
        }
    }
}

impl<'a, T: PhysicalMemory, Q: CacheValidator> PhysicalMemory for CachedMemoryAccess<'a, T, Q> {
    open spec fn inv(&self) -> bool {
        self.cache().wf() && self.backend().inv()
    }

    open spec fn memory(&self) -> Memory {
        self.backend().memory()
    }

    open spec fn read_log(&self) -> ReadLog {
        self.log()
    }

    open spec fn write_log(&self) -> WriteLog {
        self.written()
    }

    open spec fn faithful(&self) -> bool {
        self.backend().faithful() && self.cache().coherent(self.backend().memory())
    }

    open spec fn admits_write(&self, addr: PhysicalAddress, len: usize) -> bool {
        self.backend().admits_write(addr, len) && (self.cache().cacheable(addr.page_type)
            || self.cache().untouched(addr, len))
    }

    open spec fn reads_cannot_fail(&self) -> bool {
        self.backend().reads_cannot_fail()
    }

    open spec fn writes_cannot_fail(&self) -> bool {
        self.backend().writes_cannot_fail()
    }

    /// Advances the clock of the cache, gives up the scratch region of the
    /// read before, and reads the batch through the cache: see
    /// `PageCache::cached_read`. The backend is asked for the requests
    /// whose page type is not cached and for the pages that the cache does
    /// not hold, and for nothing else. A batch for which it is not asked
    /// at all succeeds; else the result is that of its last answer.
    fn phys_read_raw_list(&mut self, data: &mut [PhysicalReadData]) -> (r: Result<(), Error>)
        ensures
            final(self).cache().page_len() == old(self).cache().page_len(),
            final(self).cache().mask() == old(self).cache().mask(),
            final(self).cache().slots().len() == old(self).cache().slots().len(),
            old(self).cache().validator().advances_to(final(self).cache().validator()),
            final(self).cache().validator().now() >= old(self).cache().validator().now(),
            forall|s: u64|
                (#[trigger] final(self).cache().validator().fresh(s)) ==> old(self).cache().validator().fresh(s),
            r is Ok ==> ({
                let before = old(self).cache().with_validator(final(self).cache().validator());
                &&& final(self).backend().read_log() == old(self).backend().read_log()
                    + requests_of(before.bypassed(old(data)@)) + fetches_of(
                    before.stage_batch(old(data)@),
                    before.page_len(),
                )
                &&& final(self).cache().tags() == before.tags_after(before.stage_batch(old(data)@))
            }),
            final(self).backend().write_log() == old(self).backend().write_log(),
            ({
                let before = old(self).cache().with_validator(final(self).cache().validator());
                let sent_on = before.bypassed(old(data)@);
                let fetched = before.stage_batch(old(data)@);
                &&& sent_on.len() == 0 && fetched.len() == 0 ==> r is Ok
                &&& sent_on.len() == 0 ==> final(self).backend().read_log() == old(self).backend().read_log() + fetches_of(fetched, before.page_len())
                &&& fetched.len() == 0 ==> final(self).cache().slots() == old(self).cache().slots()
                &&& r is Ok ==> forall|i: int|
                    0 <= i < before.slots().len() && !before.targets(fetched, i) ==> (
                    #[trigger] final(self).cache().slots()[i]).buf@ == old(self).cache().slots()[i].buf@
            }),
            r is Err ==> final(self).cache().slots() == old(self).cache().slots(),
            r is Err ==> ({
                let before = old(self).cache().with_validator(final(self).cache().validator());
                let sent = old(self).backend().read_log() + requests_of(
                    before.bypassed(old(data)@),
                );
                final(self).backend().read_log() == sent || final(self).backend().read_log() == sent
                    + fetches_of(before.stage_batch(old(data)@), before.page_len())
            }),
    {
        self.cache.update_validity();
        arena_reset(&mut self.arena);
        let r = self.cache.cached_read(self.mem, data, &self.arena);
        proof {
            self.log@ = self.log@ + requests_of(old(data)@);
        }
        r
    }

    /// Advances the clock of the cache and sends the batch to the backend
    /// as it is. What the backend answers is handed to
    /// `PageCache::cached_write`, and its result is that of the call:
    /// where the backend fails the cache stays as it was, else each write
    /// whose page type is cached is copied, in the order of the batch,
    /// into the pages it touches that the cache holds. No slot changes its
    /// page or its stamp, and no page is fetched.
    fn phys_write_raw_list(&mut self, data: &[PhysicalWriteData]) -> (r: Result<(), Error>)
        ensures
            final(self).cache().page_len() == old(self).cache().page_len(),
            final(self).cache().mask() == old(self).cache().mask(),
            final(self).cache().slots().len() == old(self).cache().slots().len(),
            old(self).cache().validator().advances_to(final(self).cache().validator()),
            final(self).cache().validator().now() >= old(self).cache().validator().now(),
            forall|s: u64|
                (#[trigger] final(self).cache().validator().fresh(s)) ==> old(self).cache().validator().fresh(s),
            final(self).cache().tags() == old(self).cache().tags(),
            final(self).backend().read_log() == old(self).backend().read_log(),
            final(self).backend().write_log() == old(self).backend().write_log() + writes_of(data@),
            r is Err ==> final(self).cache().slots() == old(self).cache().slots(),
            r is Ok ==> forall|i: int, j: int|
                0 <= i < old(self).cache().slots().len() && 0 <= j < old(self).cache().page_len()
                    ==> (#[trigger] final(self).cache().slots()[i].buf@[j]) == old(self).cache().with_validator(final(self).cache().validator()).cached_byte_after(
                    i,
                    j,
                    data@,
                ),
    {
        let ghost before = self.memory();
        let ghost trusted = self.faithful() && (forall|i: int|
            0 <= i < data@.len() ==> self.admits_write(
                (#[trigger] data@[i]).addr,
                data@[i].buf@.len() as usize,
            ));
        proof {
            self.written@ = self.written@ + writes_of(data@);
        }
        self.cache.update_validity();
        let ghost aged = self.cache;
        let sent = self.mem.phys_write_raw_list(data);
        let r = self.cache.cached_write(data, sent);
        proof {
            if trusted {
                if r is Ok {
                    assert forall|k: int| 0 <= k < data@.len() implies aged.cacheable(
                        (#[trigger] data@[k]).addr.page_type,
                    ) || aged.untouched(data@[k].addr, data@[k].buf@.len() as usize) by {
                        assert(old(self).admits_write(data@[k].addr, data@[k].buf@.len() as usize));
                    }
                    aged.lemma_write_back_coherent(&self.cache, data@, before);
                } else {
                    assert(self.cache.tags() == aged.tags());
                    assert(self.cache.coherent(before));
                }
            }
        }
        r
    }
}

/// The overlay is transparent: a read through a faithful overlay and a
/// read of the same addresses from its backend return the same bytes at
/// every mapped address.
pub proof fn lemma_transparent<T: PhysicalMemory, Q: CacheValidator>(
    overlay: CachedMemoryAccess<T, Q>,
    through: PhysicalReadData,
    direct: PhysicalReadData,
)
    requires
        through.addr.address == direct.addr.address,
        through.buf@.len() == direct.buf@.len(),
        reads_from(overlay.memory(), through),
        reads_from(overlay.backend().memory(), direct),
    ensures
        forall|j: int|
            0 <= j < through.buf@.len() && byte_mapped(overlay.memory(), through.addr, j) ==> (
            #[trigger] through.buf@[j]) == direct.buf@[j],
        (forall|j: int|
            0 <= j < through.buf@.len() ==> byte_mapped(overlay.memory(), through.addr, j))
            ==> through.buf@ == direct.buf@,
{
    lemma_same_bytes(overlay.memory(), through, direct);
}

} // verus!
