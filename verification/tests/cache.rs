use flow_core::{
    Address, CachedMemoryAccess, CountCacheValidator, Error, Memory, MemoryMap,
    NeverExpireValidator, PageCache, PageType, PhysicalAddress, PhysicalMemory, PhysicalReadData,
    PhysicalWriteData, ReadLog, WriteLog, WriteMappedFilePhysicalMemory,
};

/// A backend that counts what reaches it, and can be told to fail.
struct Counting {
    inner: WriteMappedFilePhysicalMemory,
    read_calls: usize,
    read_entries: Vec<(u64, usize)>,
    write_calls: usize,
    fail_reads: bool,
    fail_writes: bool,
}

impl PhysicalMemory for Counting {
    fn inv(&self) -> bool {
        true
    }

    fn memory(&self) -> Memory {
        unreachable!()
    }

    fn read_log(&self) -> ReadLog {
        unreachable!()
    }

    fn write_log(&self) -> WriteLog {
        unreachable!()
    }

    fn faithful(&self) -> bool {
        true
    }

    fn admits_write(&self, _addr: PhysicalAddress, _len: usize) -> bool {
        true
    }

    fn reads_cannot_fail(&self) -> bool {
        false
    }

    fn writes_cannot_fail(&self) -> bool {
        false
    }

    fn phys_read_raw_list(&mut self, data: &mut [PhysicalReadData]) -> Result<(), Error> {
        self.read_calls += 1;
        for d in data.iter() {
            self.read_entries.push((d.addr.address.0, d.buf.len()));
        }
        if self.fail_reads {
            return Err(Error::Internal);
        }
        self.inner.phys_read_raw_list(data)
    }

    fn phys_write_raw_list(&mut self, data: &[PhysicalWriteData]) -> Result<(), Error> {
        self.write_calls += 1;
        if self.fail_writes {
            return Err(Error::Internal);
        }
        self.inner.phys_write_raw_list(data)
    }
}

const PAGE: usize = 4096;

fn backend() -> Counting {
    let buf: Vec<u8> = (0..5 * PAGE).map(|i| (i % 251) as u8).collect();
    let mut map = MemoryMap::new();
    assert!(map.push(Address(0), (Address(0), 5 * PAGE)));
    Counting {
        inner: WriteMappedFilePhysicalMemory::try_with_bufmap_mut(buf, map).unwrap(),
        read_calls: 0,
        read_entries: Vec::new(),
        write_calls: 0,
        fail_reads: false,
        fail_writes: false,
    }
}

fn byte(i: usize) -> u8 {
    (i % 251) as u8
}

fn cached() -> PageType {
    PageType::page_table()
}

fn uncached() -> PageType {
    PageType::writeable()
}

fn read(addr: u64, len: usize, page_type: PageType) -> PhysicalReadData {
    PhysicalReadData { addr: PhysicalAddress::with_page(Address(addr), page_type), buf: vec![0xee; len] }
}

fn cache() -> PageCache<NeverExpireValidator> {
    PageCache::new(PAGE, 4, cached(), NeverExpireValidator::new()).unwrap()
}

#[test]
fn second_read_of_a_page_needs_no_fetch() {
    let mut mem = backend();
    let mut overlay = CachedMemoryAccess::with(&mut mem, cache());
    let mut first = vec![read(0, 16, cached())];
    assert_eq!(overlay.phys_read_raw_list(&mut first), Ok(()));
    let mut second = vec![read(0, 16, cached())];
    assert_eq!(overlay.phys_read_raw_list(&mut second), Ok(()));
    let bytes = [0xde, 0xad, 0xbe, 0xef];
    let writes = vec![PhysicalWriteData { addr: PhysicalAddress::with_page(Address(4), cached()), buf: &bytes }];
    assert_eq!(overlay.phys_write_raw_list(&writes), Ok(()));
    let mut third = vec![read(4, 4, cached())];
    assert_eq!(overlay.phys_read_raw_list(&mut third), Ok(()));
    let want: Vec<u8> = (0..16).map(byte).collect();
    assert_eq!(first[0].buf, want);
    assert_eq!(second[0].buf, want);
    assert_eq!(third[0].buf, vec![0xde, 0xad, 0xbe, 0xef]);
    drop(overlay);
    assert_eq!(mem.read_calls, 1);
    assert_eq!(mem.read_entries, vec![(0, PAGE)]);
    assert_eq!(mem.write_calls, 1);
}

#[test]
fn first_read_fetches_once_and_second_not_at_all() {
    let mut mem = backend();
    {
        let mut overlay = CachedMemoryAccess::with(&mut mem, cache());
        let mut first = vec![read(0, 16, cached())];
        assert_eq!(overlay.phys_read_raw_list(&mut first), Ok(()));
    }
    assert_eq!(mem.read_calls, 1);
}

#[test]
fn overlay_reads_what_the_backend_reads() {
    let mut direct = backend();
    let mut mem = backend();
    let mut overlay = CachedMemoryAccess::with(&mut mem, cache());
    let requests = [(0x0ff0u64, 0x40usize), (0x10, 1), (0x2ffe, 0x1004), (0x4fff, 1), (0x0, 0), (0x0ff0, 0x40)];
    for round in 0..3 {
        let mut a: Vec<PhysicalReadData> = requests.iter().map(|(x, n)| read(*x, *n, cached())).collect();
        let mut b: Vec<PhysicalReadData> = requests.iter().map(|(x, n)| read(*x, *n, cached())).collect();
        assert_eq!(overlay.phys_read_raw_list(&mut a), Ok(()));
        assert_eq!(direct.phys_read_raw_list(&mut b), Ok(()));
        for k in 0..requests.len() {
            assert_eq!(a[k].buf, b[k].buf, "round {} request {}", round, k);
        }
    }
}

#[test]
fn read_across_a_page_boundary_fetches_both_pages_once() {
    let mut mem = backend();
    {
        let mut overlay = CachedMemoryAccess::with(&mut mem, cache());
        let mut data = vec![read(0x0ffc, 8, cached()), read(0x1ffe, 2, cached()), read(0x0010, 4, cached())];
        assert_eq!(overlay.phys_read_raw_list(&mut data), Ok(()));
        let want: Vec<u8> = (0x0ffc..0x1004).map(byte).collect();
        assert_eq!(data[0].buf, want);
        assert_eq!(data[1].buf, vec![byte(0x1ffe), byte(0x1fff)]);
        assert_eq!(data[2].buf, vec![byte(0x10), byte(0x11), byte(0x12), byte(0x13)]);
    }
    assert_eq!(mem.read_calls, 1);
    assert_eq!(mem.read_entries, vec![(0, PAGE), (0x1000, PAGE)]);
}

#[test]
fn pages_that_share_a_slot_drive_each_other_out() {
    let mut mem = backend();
    {
        let small = PageCache::new(PAGE, 2, cached(), NeverExpireValidator::new()).unwrap();
        let mut overlay = CachedMemoryAccess::with(&mut mem, small);
        let mut data = vec![read(0x0000, 4, cached()), read(0x2000, 4, cached())];
        assert_eq!(overlay.phys_read_raw_list(&mut data), Ok(()));
        assert_eq!(data[0].buf, vec![byte(0), byte(1), byte(2), byte(3)]);
        assert_eq!(data[1].buf, vec![byte(0x2000), byte(0x2001), byte(0x2002), byte(0x2003)]);
        let mut again = vec![read(0x2000, 1, cached())];
        assert_eq!(overlay.phys_read_raw_list(&mut again), Ok(()));
        let mut evicted = vec![read(0x0000, 1, cached())];
        assert_eq!(overlay.phys_read_raw_list(&mut evicted), Ok(()));
        assert_eq!(evicted[0].buf, vec![byte(0)]);
    }
    assert_eq!(mem.read_calls, 2);
    assert_eq!(mem.read_entries, vec![(0, PAGE), (0x2000, PAGE), (0, PAGE)]);
}

#[test]
fn uncached_page_types_reach_the_backend_every_time() {
    let mut mem = backend();
    {
        let mut overlay = CachedMemoryAccess::with(&mut mem, cache());
        for _ in 0..3 {
            let mut data = vec![read(0x20, 4, uncached())];
            assert_eq!(overlay.phys_read_raw_list(&mut data), Ok(()));
            assert_eq!(data[0].buf, vec![byte(0x20), byte(0x21), byte(0x22), byte(0x23)]);
        }
    }
    assert_eq!(mem.read_calls, 3);
    assert_eq!(mem.read_entries, vec![(0x20, 4), (0x20, 4), (0x20, 4)]);
}

#[test]
fn mixed_batch_sends_uncached_requests_as_they_are() {
    let mut mem = backend();
    {
        let mut overlay = CachedMemoryAccess::with(&mut mem, cache());
        let mut data = vec![
            read(0x1010, 2, uncached()),
            read(0x1010, 2, cached()),
            read(0x3000, 1, uncached()),
        ];
        assert_eq!(overlay.phys_read_raw_list(&mut data), Ok(()));
        assert_eq!(data[0].buf, vec![byte(0x1010), byte(0x1011)]);
        assert_eq!(data[1].buf, vec![byte(0x1010), byte(0x1011)]);
        assert_eq!(data[2].buf, vec![byte(0x3000)]);
        assert_eq!(data[0].addr.page_type, uncached());
    }
    assert_eq!(mem.read_calls, 2);
    assert_eq!(mem.read_entries, vec![(0x1010, 2), (0x3000, 1), (0x1000, PAGE)]);
}

#[test]
fn empty_batch_reaches_no_backend() {
    let mut mem = backend();
    {
        let mut overlay = CachedMemoryAccess::with(&mut mem, cache());
        let mut data: Vec<PhysicalReadData> = Vec::new();
        assert_eq!(overlay.phys_read_raw_list(&mut data), Ok(()));
        let mut empty = vec![read(0x10, 0, cached())];
        assert_eq!(overlay.phys_read_raw_list(&mut empty), Ok(()));
    }
    assert_eq!(mem.read_calls, 0);
}

#[test]
fn stale_page_is_fetched_again_exactly_once() {
    let mut mem = backend();
    {
        let counted = PageCache::new(PAGE, 4, cached(), CountCacheValidator::new(2)).unwrap();
        let mut overlay = CachedMemoryAccess::with(&mut mem, counted);
        for _ in 0..5 {
            let mut data = vec![read(0x1008, 2, cached()), read(0x1ff0, 2, cached())];
            assert_eq!(overlay.phys_read_raw_list(&mut data), Ok(()));
            assert_eq!(data[0].buf, vec![byte(0x1008), byte(0x1009)]);
        }
    }
    assert_eq!(mem.read_entries, vec![(0x1000, PAGE), (0x1000, PAGE), (0x1000, PAGE)]);
    assert_eq!(mem.read_calls, 3);
}

#[test]
fn write_through_reaches_the_backend_and_the_cached_page() {
    let mut mem = backend();
    {
        let mut overlay = CachedMemoryAccess::with(&mut mem, cache());
        let mut warm = vec![read(0x0ff0, 0x20, cached())];
        assert_eq!(overlay.phys_read_raw_list(&mut warm), Ok(()));
        let bytes: Vec<u8> = (1..=8).collect();
        let writes = vec![PhysicalWriteData {
            addr: PhysicalAddress::with_page(Address(0x0ffc), cached()),
            buf: &bytes,
        }];
        assert_eq!(overlay.phys_write_raw_list(&writes), Ok(()));
        let mut back = vec![read(0x0ffa, 12, cached())];
        assert_eq!(overlay.phys_read_raw_list(&mut back), Ok(()));
        assert_eq!(back[0].buf, vec![byte(0xffa), byte(0xffb), 1, 2, 3, 4, 5, 6, 7, 8, byte(0x1004), byte(0x1005)]);
    }
    assert_eq!(mem.read_calls, 1);
    let mut direct = vec![read(0x0ffc, 8, uncached())];
    assert_eq!(mem.inner.phys_read_raw_list(&mut direct), Ok(()));
    assert_eq!(direct[0].buf, vec![1, 2, 3, 4, 5, 6, 7, 8]);
}

#[test]
fn write_to_a_page_that_is_not_cached_fills_nothing() {
    let mut mem = backend();
    {
        let mut overlay = CachedMemoryAccess::with(&mut mem, cache());
        let bytes = [0x11u8, 0x22];
        let writes = vec![PhysicalWriteData {
            addr: PhysicalAddress::with_page(Address(0x2000), cached()),
            buf: &bytes,
        }];
        assert_eq!(overlay.phys_write_raw_list(&writes), Ok(()));
        let mut back = vec![read(0x2000, 3, cached())];
        assert_eq!(overlay.phys_read_raw_list(&mut back), Ok(()));
        assert_eq!(back[0].buf, vec![0x11, 0x22, byte(0x2002)]);
    }
    assert_eq!(mem.read_calls, 1);
    assert_eq!(mem.read_entries, vec![(0x2000, PAGE)]);
}

#[test]
fn write_round_trip_whatever_the_state_of_the_page() {
    let mut mem = backend();
    let counted = PageCache::new(PAGE, 4, cached(), CountCacheValidator::new(2)).unwrap();
    let mut overlay = CachedMemoryAccess::with(&mut mem, counted);
    let mut value = 0u8;
    for step in 0..8 {
        if step % 3 == 0 {
            let mut warm = vec![read(0x3000, 1, cached())];
            assert_eq!(overlay.phys_read_raw_list(&mut warm), Ok(()));
        }
        value = value.wrapping_add(17);
        let bytes = [value, value ^ 0xff, value];
        let writes = vec![PhysicalWriteData {
            addr: PhysicalAddress::with_page(Address(0x3ffe), cached()),
            buf: &bytes,
        }];
        assert_eq!(overlay.phys_write_raw_list(&writes), Ok(()));
        let mut back = vec![read(0x3ffe, 3, cached())];
        assert_eq!(overlay.phys_read_raw_list(&mut back), Ok(()));
        assert_eq!(back[0].buf, bytes.to_vec());
    }
}

#[test]
fn failed_fetch_is_passed_on_and_leaves_the_cache_alone() {
    let mut mem = backend();
    {
        let mut overlay = CachedMemoryAccess::with(&mut mem, cache());
        let mut warm = vec![read(0x0000, 4, cached())];
        assert_eq!(overlay.phys_read_raw_list(&mut warm), Ok(()));
    }
    mem.fail_reads = true;
    mem.read_entries.clear();
    let mut overlay = CachedMemoryAccess::with(&mut mem, cache());
    let mut data = vec![read(0x1000, 4, cached()), read(0x10, 2, uncached())];
    assert_eq!(overlay.phys_read_raw_list(&mut data), Err(Error::Internal));
    assert_eq!(data[0].buf.len(), 4);
    assert_eq!(data[1].buf.len(), 2);
    assert_eq!(data[1].addr.address, Address(0x10));
}

#[test]
fn failed_write_is_passed_on_and_patches_nothing() {
    let mut mem = backend();
    let mut overlay = CachedMemoryAccess::with(&mut mem, cache());
    let mut warm = vec![read(0x0000, 4, cached())];
    assert_eq!(overlay.phys_read_raw_list(&mut warm), Ok(()));
    drop(overlay);
    mem.fail_writes = true;
    let mut overlay = CachedMemoryAccess::with(&mut mem, cache());
    let bytes = [0x77u8; 4];
    let writes = vec![PhysicalWriteData { addr: PhysicalAddress::with_page(Address(0), cached()), buf: &bytes }];
    assert_eq!(overlay.phys_write_raw_list(&writes), Err(Error::Internal));
    let mut back = vec![read(0x0000, 4, cached())];
    assert_eq!(overlay.phys_read_raw_list(&mut back), Ok(()));
    assert_eq!(back[0].buf, vec![byte(0), byte(1), byte(2), byte(3)]);
}

#[test]
fn write_of_an_uncached_type_does_not_touch_the_cached_copy() {
    let mut mem = backend();
    let mut overlay = CachedMemoryAccess::with(&mut mem, cache());
    let mut warm = vec![read(0x0000, 4, cached())];
    assert_eq!(overlay.phys_read_raw_list(&mut warm), Ok(()));
    let bytes = [0x77u8; 2];
    let writes = vec![PhysicalWriteData { addr: PhysicalAddress::with_page(Address(1), uncached()), buf: &bytes }];
    assert_eq!(overlay.phys_write_raw_list(&writes), Ok(()));
    let mut through_cache = vec![read(0x0000, 4, cached())];
    let mut past_cache = vec![read(0x0000, 4, uncached())];
    assert_eq!(overlay.phys_read_raw_list(&mut through_cache), Ok(()));
    assert_eq!(overlay.phys_read_raw_list(&mut past_cache), Ok(()));
    assert_eq!(through_cache[0].buf, vec![byte(0), byte(1), byte(2), byte(3)]);
    assert_eq!(past_cache[0].buf, vec![byte(0), 0x77, 0x77, byte(3)]);
}

#[test]
fn overlay_over_an_overlay_reads_the_same_bytes() {
    let mut mem = backend();
    let mut inner = CachedMemoryAccess::with(&mut mem, cache());
    let outer_cache = PageCache::new(256, 8, cached(), NeverExpireValidator::new()).unwrap();
    let mut outer = CachedMemoryAccess::with(&mut inner, outer_cache);
    let mut data = vec![read(0x10fe, 4, cached())];
    assert_eq!(outer.phys_read_raw_list(&mut data), Ok(()));
    assert_eq!(data[0].buf, vec![byte(0x10fe), byte(0x10ff), byte(0x1100), byte(0x1101)]);
    let bytes = [5u8, 6];
    let writes = vec![PhysicalWriteData { addr: PhysicalAddress::with_page(Address(0x10ff), cached()), buf: &bytes }];
    assert_eq!(outer.phys_write_raw_list(&writes), Ok(()));
    let mut back = vec![read(0x10fe, 4, cached())];
    assert_eq!(outer.phys_read_raw_list(&mut back), Ok(()));
    assert_eq!(back[0].buf, vec![byte(0x10fe), 5, 6, byte(0x1101)]);
}

#[test]
fn cached_read_past_the_end_of_the_address_space() {
    let mut map: MemoryMap<Vec<u8>> = MemoryMap::new();
    assert!(map.push(Address(u64::MAX - 3), vec![1, 2, 3, 4]));
    let mut mem = flow_core::MappedPhysicalMemory::with_info(map);
    let mut overlay = CachedMemoryAccess::with(&mut mem, cache());
    let mut data = vec![read(u64::MAX - 1, 8, cached())];
    assert_eq!(overlay.phys_read_raw_list(&mut data), Ok(()));
    assert_eq!(data[0].buf, vec![3, 4, 0xee, 0xee, 0xee, 0xee, 0xee, 0xee]);
}

#[test]
fn fill_fetches_the_whole_page_once() {
    let mut mem = backend();
    let mut table = cache();
    let addr = PhysicalAddress::with_page(Address(0x2abc), cached());
    assert_eq!(table.fill(addr, &mut mem), Ok(()));
    assert!(table.is_valid_page(Address(0x2000)));
    assert!(!table.is_valid_page(Address(0x3000)));
    assert_eq!(mem.read_calls, 1);
    assert_eq!(mem.read_entries, vec![(0x2000, PAGE)]);
    let mut overlay = CachedMemoryAccess::with(&mut mem, table);
    let mut data = vec![read(0x2ffe, 2, cached())];
    assert_eq!(overlay.phys_read_raw_list(&mut data), Ok(()));
    assert_eq!(data[0].buf, vec![byte(0x2ffe), byte(0x2fff)]);
    drop(overlay);
    assert_eq!(mem.read_calls, 1);
    mem.fail_reads = true;
    let mut other = cache();
    assert_eq!(other.fill(addr, &mut mem), Err(Error::Internal));
    assert!(!other.is_valid_page(Address(0x2000)));
}

#[test]
fn cached_read_works_in_an_arena_of_the_caller() {
    let mut mem = backend();
    let mut table = cache();
    let mut arena = bumpalo::Bump::new();
    for round in 0..3 {
        arena.reset();
        let mut data = vec![read(0x1ffc, 8, cached()), read(0x40, 2, uncached())];
        assert_eq!(table.cached_read(&mut mem, &mut data, &arena), Ok(()));
        let want: Vec<u8> = (0x1ffc..0x2004).map(byte).collect();
        assert_eq!(data[0].buf, want, "round {}", round);
        assert_eq!(data[1].buf, vec![byte(0x40), byte(0x41)]);
    }
    assert!(table.is_valid_page(Address(0x1000)));
    assert!(table.is_valid_page(Address(0x2000)));
    assert_eq!(
        mem.read_entries,
        vec![(0x40, 2), (0x1000, PAGE), (0x2000, PAGE), (0x40, 2), (0x40, 2)]
    );
}

#[test]
fn cached_write_goes_by_the_answer_of_the_backend() {
    let mut table = PageCache::new(8, 2, cached(), NeverExpireValidator::new()).unwrap();
    let mut page = vec![1u8, 2, 3, 4, 5, 6, 7, 8];
    table.install(Address(8), &mut page);
    let bytes = [9u8, 9, 9, 9];
    let writes = vec![PhysicalWriteData {
        addr: PhysicalAddress::with_page(Address(6), cached()),
        buf: &bytes,
    }];
    assert_eq!(table.cached_write(&writes, Err(Error::Unsupported)), Err(Error::Unsupported));
    assert!(table.is_valid_page(Address(8)));
    let mut held = vec![0u8; 8];
    table.install(Address(24), &mut held);
    assert_eq!(held, vec![1, 2, 3, 4, 5, 6, 7, 8]);
    table.install(Address(8), &mut held);
    assert_eq!(table.cached_write(&writes, Ok(())), Ok(()));
    assert!(table.is_valid_page(Address(8)));
    assert!(!table.is_valid_page(Address(0)));
    let mut patched = vec![0u8; 8];
    table.install(Address(24), &mut patched);
    assert_eq!(patched, vec![9, 9, 3, 4, 5, 6, 7, 8]);
}

#[test]
fn cached_write_copies_in_order_and_skips_uncached_types() {
    let mut table = PageCache::new(8, 2, cached(), NeverExpireValidator::new()).unwrap();
    let mut page = vec![1u8, 2, 3, 4, 5, 6, 7, 8];
    table.install(Address(8), &mut page);
    let first = [7u8, 7, 7];
    let second = [5u8];
    let third = [3u8, 3];
    let writes = vec![
        PhysicalWriteData { addr: PhysicalAddress::with_page(Address(10), cached()), buf: &first },
        PhysicalWriteData { addr: PhysicalAddress::with_page(Address(11), cached()), buf: &second },
        PhysicalWriteData { addr: PhysicalAddress::with_page(Address(14), uncached()), buf: &third },
    ];
    assert_eq!(table.cached_write(&writes, Ok(())), Ok(()));
    let mut held = vec![0u8; 8];
    table.install(Address(24), &mut held);
    assert_eq!(held, vec![1, 2, 7, 5, 7, 6, 7, 8]);
    let nothing: Vec<PhysicalWriteData> = Vec::new();
    assert_eq!(table.cached_write(&nothing, Ok(())), Ok(()));
    assert_eq!(table.cached_write(&nothing, Err(Error::Internal)), Err(Error::Internal));
}

#[test]
fn stale_page_is_not_patched_by_a_write() {
    let mut table = PageCache::new(8, 2, cached(), CountCacheValidator::new(1)).unwrap();
    let mut page = vec![1u8, 2, 3, 4, 5, 6, 7, 8];
    table.install(Address(8), &mut page);
    table.update_validity();
    assert!(!table.is_valid_page(Address(8)));
    let bytes = [9u8, 9];
    let writes = vec![PhysicalWriteData {
        addr: PhysicalAddress::with_page(Address(8), cached()),
        buf: &bytes,
    }];
    assert_eq!(table.cached_write(&writes, Ok(())), Ok(()));
    let mut held = vec![0u8; 8];
    table.install(Address(24), &mut held);
    assert_eq!(held, vec![1, 2, 3, 4, 5, 6, 7, 8]);
}

#[test]
fn every_write_of_a_batch_reaches_the_backend() {
    let mut mem = backend();
    {
        let mut overlay = CachedMemoryAccess::with(&mut mem, cache());
        let a = [1u8, 2];
        let b = [3u8];
        let writes = vec![
            PhysicalWriteData { addr: PhysicalAddress::with_page(Address(0x10), cached()), buf: &a },
            PhysicalWriteData { addr: PhysicalAddress::with_page(Address(0x2000), uncached()), buf: &b },
        ];
        assert_eq!(overlay.phys_write_raw_list(&writes), Ok(()));
        let nothing: Vec<PhysicalWriteData> = Vec::new();
        assert_eq!(overlay.phys_write_raw_list(&nothing), Ok(()));
    }
    assert_eq!(mem.write_calls, 2);
    assert_eq!(mem.read_calls, 0);
    let mut direct = vec![read(0x10, 2, uncached()), read(0x2000, 1, uncached())];
    assert_eq!(mem.inner.phys_read_raw_list(&mut direct), Ok(()));
    assert_eq!(direct[0].buf, vec![1, 2]);
    assert_eq!(direct[1].buf, vec![3]);
}

fn small_table() -> PageCache<NeverExpireValidator> {
    let mut table = PageCache::new(8, 2, cached(), NeverExpireValidator::new()).unwrap();
    let mut page = vec![10u8, 11, 12, 13, 14, 15, 16, 17];
    table.install(Address(8), &mut page);
    table
}

fn whole_page(addr: u64, first: u8) -> PhysicalReadData {
    PhysicalReadData {
        addr: PhysicalAddress::with_page(Address(addr), cached()),
        buf: (first..first + 8).collect(),
    }
}

#[test]
fn finish_read_serves_from_table_and_staged_pages() {
    let mut table = small_table();
    let mut data = vec![
        read(6, 12, cached()),
        PhysicalReadData { addr: PhysicalAddress::with_page(Address(40), uncached()), buf: Vec::new() },
        read(17, 2, cached()),
        read(100, 2, cached()),
    ];
    let mut bypass = vec![PhysicalReadData {
        addr: PhysicalAddress::with_page(Address(40), uncached()),
        buf: vec![1, 2, 3],
    }];
    let mut staged = vec![whole_page(0, 20), whole_page(16, 30), whole_page(16, 50)];
    assert_eq!(table.finish_read(&mut data, &mut bypass, &mut staged, Ok(())), Ok(()));
    assert_eq!(data[0].buf, vec![26, 27, 10, 11, 12, 13, 14, 15, 16, 17, 30, 31]);
    assert_eq!(data[1].buf, vec![1, 2, 3]);
    assert_eq!(data[2].buf, vec![31, 32]);
    assert_eq!(data[3].buf, vec![0xee, 0xee]);
    assert_eq!(data[0].addr.address, Address(6));
    assert!(!table.is_valid_page(Address(0)));
    assert!(table.is_valid_page(Address(8)));
    assert!(table.is_valid_page(Address(16)));
    let mut slot0 = vec![0u8; 8];
    table.install(Address(32), &mut slot0);
    assert_eq!(slot0, vec![50, 51, 52, 53, 54, 55, 56, 57]);
    let mut slot1 = vec![0u8; 8];
    table.install(Address(24), &mut slot1);
    assert_eq!(slot1, vec![10, 11, 12, 13, 14, 15, 16, 17]);
}

#[test]
fn finish_read_after_a_failure_only_hands_buffers_back() {
    let mut table = small_table();
    let mut data = vec![
        read(6, 12, cached()),
        PhysicalReadData { addr: PhysicalAddress::with_page(Address(40), uncached()), buf: Vec::new() },
    ];
    let mut bypass = vec![PhysicalReadData {
        addr: PhysicalAddress::with_page(Address(40), uncached()),
        buf: vec![1, 2, 3],
    }];
    let mut staged = vec![whole_page(0, 20)];
    assert_eq!(
        table.finish_read(&mut data, &mut bypass, &mut staged, Err(Error::OutOfRange)),
        Err(Error::OutOfRange)
    );
    assert_eq!(data[0].buf, vec![0xee; 12]);
    assert_eq!(data[1].buf, vec![1, 2, 3]);
    assert_eq!(staged[0].buf, vec![20, 21, 22, 23, 24, 25, 26, 27]);
    assert!(!table.is_valid_page(Address(0)));
    assert!(table.is_valid_page(Address(8)));
    let mut slot1 = vec![0u8; 8];
    table.install(Address(24), &mut slot1);
    assert_eq!(slot1, vec![10, 11, 12, 13, 14, 15, 16, 17]);
}

#[test]
fn finish_read_of_nothing_is_the_answer_it_was_given() {
    let mut table = small_table();
    let mut data: Vec<PhysicalReadData> = Vec::new();
    let mut bypass: Vec<PhysicalReadData> = Vec::new();
    let mut staged: Vec<PhysicalReadData> = Vec::new();
    assert_eq!(table.finish_read(&mut data, &mut bypass, &mut staged, Ok(())), Ok(()));
    assert_eq!(
        table.finish_read(&mut data, &mut bypass, &mut staged, Err(Error::Internal)),
        Err(Error::Internal)
    );
    assert!(table.is_valid_page(Address(8)));
}

#[test]
fn finish_fill_goes_by_the_answer_of_the_backend() {
    let mut table = small_table();
    let mut buf = vec![1u8, 2, 3, 4, 5, 6, 7, 8];
    assert_eq!(
        table.finish_fill(Address(16), &mut buf, Err(Error::Unsupported)),
        Err(Error::Unsupported)
    );
    assert_eq!(buf, vec![1, 2, 3, 4, 5, 6, 7, 8]);
    assert!(!table.is_valid_page(Address(16)));
    assert!(table.is_valid_page(Address(8)));
    assert_eq!(table.finish_fill(Address(24), &mut buf, Ok(())), Ok(()));
    assert_eq!(buf, vec![10, 11, 12, 13, 14, 15, 16, 17]);
    assert!(table.is_valid_page(Address(24)));
    assert!(!table.is_valid_page(Address(8)));
    let mut again = vec![0u8; 8];
    assert_eq!(table.finish_fill(Address(8), &mut again, Ok(())), Ok(()));
    assert_eq!(again, vec![1, 2, 3, 4, 5, 6, 7, 8]);
}

#[test]
fn read_of_held_pages_succeeds_over_a_backend_that_fails() {
    let mut mem = backend();
    let mut overlay = CachedMemoryAccess::with(&mut mem, cache());
    let mut warm = vec![read(0x1000, 4, cached())];
    assert_eq!(overlay.phys_read_raw_list(&mut warm), Ok(()));
    drop(overlay);
    let mut table = cache();
    let addr = PhysicalAddress::with_page(Address(0x1000), cached());
    assert_eq!(table.fill(addr, &mut mem), Ok(()));
    mem.fail_reads = true;
    mem.read_entries.clear();
    mem.read_calls = 0;
    let mut overlay = CachedMemoryAccess::with(&mut mem, table);
    let mut held = vec![read(0x1ffe, 2, cached()), read(0x1000, 1, cached())];
    assert_eq!(overlay.phys_read_raw_list(&mut held), Ok(()));
    assert_eq!(held[0].buf, vec![byte(0x1ffe), byte(0x1fff)]);
    assert_eq!(held[1].buf, vec![byte(0x1000)]);
    let mut none: Vec<PhysicalReadData> = Vec::new();
    assert_eq!(overlay.phys_read_raw_list(&mut none), Ok(()));
    let mut missing = vec![read(0x2000, 1, cached())];
    assert_eq!(overlay.phys_read_raw_list(&mut missing), Err(Error::Internal));
    drop(overlay);
    assert_eq!(mem.read_calls, 1);
    assert_eq!(mem.read_entries, vec![(0x2000, PAGE)]);
}
