use flow_core::mem_map::to_vec;
use flow_core::phys_mem::copy_bytes;
use flow_core::types::page_chunk;
use flow_core::validator::CacheValidator;
use flow_core::{
    Address, CountCacheValidator, Error, MemoryMap, NeverExpireValidator, PageCache, PageType,
    PhysicalAddress, Segment, TimedCacheValidator,
};

#[test]
fn page_alignment_truncates_to_page_start() {
    assert_eq!(Address(0x1234).as_page_aligned(0x1000), Address(0x1000));
    assert_eq!(Address(0x1000).as_page_aligned(0x1000), Address(0x1000));
    assert_eq!(Address(0xfff).as_page_aligned(0x1000), Address(0));
    assert_eq!(Address(u64::MAX).as_page_aligned(0x1000), Address(0xffff_ffff_ffff_f000));
    assert_eq!(Address(77).as_u64(), 77);
}

#[test]
fn page_chunk_stops_at_page_end_and_at_request_end() {
    assert_eq!(page_chunk(0x0ffc, 0x1010, 0x1000), (Address(0), 4));
    assert_eq!(page_chunk(0x1000, 0x1010, 0x1000), (Address(0x1000), 16));
    assert_eq!(page_chunk(0x1004, 0x3000, 0x1000), (Address(0x1000), 0xffc));
    assert_eq!(page_chunk(u64::MAX, u64::MAX as u128 + 1, 0x1000), (Address(0xffff_ffff_ffff_f000), 1));
}

#[test]
fn page_type_contains_and_union() {
    let mask = PageType::page_table().union(PageType::read_only());
    assert_eq!(mask.bits, 10);
    assert!(mask.contains(PageType::page_table()));
    assert!(mask.contains(PageType::read_only()));
    assert!(mask.contains(PageType::none()));
    assert!(!mask.contains(PageType::writeable()));
    assert!(!mask.contains(PageType::unknown()));
    assert!(!mask.contains(PageType::noexec()));
    assert!(!mask.contains(PageType::page_table().union(PageType::writeable())));
}

#[test]
fn physical_address_keeps_its_parts() {
    let a = PhysicalAddress::with_page(Address(0x2000), PageType::writeable());
    assert_eq!(a.address(), Address(0x2000));
    assert_eq!(a.page_type(), PageType::writeable());
}

#[test]
fn copy_bytes_writes_only_the_range() {
    let mut dst = vec![0u8; 6];
    copy_bytes(&mut dst, 2, &[9, 8, 7, 6, 5], 1, 3);
    assert_eq!(dst, vec![0, 0, 8, 7, 6, 0]);
    assert_eq!(to_vec(&[1, 2, 3, 4], 1, 2), vec![2, 3]);
    assert_eq!(to_vec(&[1, 2, 3, 4], 4, 0), Vec::<u8>::new());
}

#[test]
fn memory_map_push_keeps_order() {
    let mut map: MemoryMap<(Address, usize)> = MemoryMap::new();
    assert!(map.push(Address(0x2000), (Address(0x10), 0x100)));
    assert!(map.push(Address(0x1000), (Address(0), 0x10)));
    assert!(map.push(Address(0x3000), (Address(0x200), 0x20)));
    assert_eq!(map.len(), 3);
    assert_eq!(map.get(0).base, Address(0x1000));
    assert_eq!(map.get(1).base, Address(0x2000));
    assert_eq!(map.get(2).base, Address(0x3000));
    assert_eq!(map.get(1).output, (Address(0x10), 0x100));
}

#[test]
fn memory_map_push_rejects_overlap_and_overflow() {
    let mut map: MemoryMap<(Address, usize)> = MemoryMap::new();
    assert!(map.push(Address(0x1000), (Address(0), 0x100)));
    assert!(!map.push(Address(0x10ff), (Address(0), 1)));
    assert!(!map.push(Address(0x0fff), (Address(0), 2)));
    assert!(!map.push(Address(0x0800), (Address(0), 0x1000)));
    assert!(!map.push(Address(u64::MAX), (Address(0), 2)));
    assert_eq!(map.len(), 1);
    assert!(map.push(Address(0x1100), (Address(0), 1)));
    assert!(map.push(Address(0x0fff), (Address(0), 1)));
    assert!(map.push(Address(u64::MAX), (Address(0), 1)));
    assert_eq!(map.len(), 4);
    assert_eq!(map.get(0).base, Address(0x0fff));
    assert_eq!(map.get(3).base, Address(u64::MAX));
}

#[test]
fn map_range_splits_into_segments_and_gaps() {
    let mut map: MemoryMap<(Address, usize)> = MemoryMap::new();
    assert!(map.push(Address(0x100), (Address(0), 0x10)));
    assert!(map.push(Address(0x120), (Address(0), 0x10)));
    let mut gaps = vec![(Address(1), 1usize)];
    let segs = map.map_range(Address(0x0f8), 0x40, &mut gaps);
    assert_eq!(
        segs,
        vec![
            Segment { index: 0, offset: 0, start: 8, len: 0x10 },
            Segment { index: 1, offset: 0, start: 0x28, len: 0x10 },
        ]
    );
    assert_eq!(
        gaps,
        vec![(Address(1), 1), (Address(0x0f8), 8), (Address(0x110), 0x10), (Address(0x130), 8)]
    );
}

#[test]
fn map_range_inside_one_mapping_has_no_gap() {
    let mut map: MemoryMap<(Address, usize)> = MemoryMap::new();
    assert!(map.push(Address(0x100), (Address(0), 0x10)));
    let mut gaps = Vec::new();
    let segs = map.map_range(Address(0x104), 4, &mut gaps);
    assert_eq!(segs, vec![Segment { index: 0, offset: 4, start: 0, len: 4 }]);
    assert!(gaps.is_empty());
    let none = map.map_range(Address(0x104), 0, &mut gaps);
    assert!(none.is_empty());
    assert!(gaps.is_empty());
}

#[test]
fn map_range_stops_at_the_end_of_the_address_space() {
    let mut map: MemoryMap<(Address, usize)> = MemoryMap::new();
    assert!(map.push(Address(u64::MAX - 1), (Address(0), 1)));
    let mut gaps = Vec::new();
    let segs = map.map_range(Address(u64::MAX - 3), 16, &mut gaps);
    assert_eq!(segs, vec![Segment { index: 0, offset: 0, start: 2, len: 1 }]);
    assert_eq!(gaps, vec![(Address(u64::MAX - 3), 2), (Address(u64::MAX), 1)]);
}

#[test]
fn never_expire_keeps_every_stamp_fresh() {
    let mut v = NeverExpireValidator::new();
    let s = v.stamp();
    for _ in 0..1000 {
        v.update_validity();
    }
    assert!(v.is_valid(s));
    assert!(v.is_valid(u64::MAX));
}

#[test]
fn count_validator_expires_after_its_count() {
    let mut v = CountCacheValidator::new(2);
    v.update_validity();
    let s = v.stamp();
    assert_eq!(s, 1);
    assert!(v.is_valid(s));
    v.update_validity();
    assert!(v.is_valid(s));
    v.update_validity();
    assert!(!v.is_valid(s));
    v.update_validity();
    assert!(!v.is_valid(s));
    assert!(v.is_valid(v.stamp()));
}

#[test]
fn count_validator_with_zero_count_keeps_nothing() {
    let mut v = CountCacheValidator::new(0);
    assert!(!v.is_valid(v.stamp()));
    v.update_validity();
    assert!(!v.is_valid(v.stamp()));
}

#[test]
fn timed_validator_goes_by_the_milliseconds_it_is_given() {
    let mut v = TimedCacheValidator::new(100);
    assert_eq!(v.stamp(), 0);
    v.advance_to(50);
    assert_eq!(v.stamp(), 50);
    assert!(v.is_valid(0));
    v.advance_to(99);
    assert!(v.is_valid(0));
    v.advance_to(100);
    assert!(!v.is_valid(0));
    assert!(v.is_valid(50));
    v.advance_to(20);
    assert_eq!(v.stamp(), 100);
    v.advance_to(u128::MAX);
    assert_eq!(v.stamp(), u64::MAX);
    assert!(!v.is_valid(50));
}

#[test]
fn timed_validator_clock_never_runs_backwards() {
    let mut v = TimedCacheValidator::new(1_000_000);
    let before = v.stamp();
    v.update_validity();
    let after = v.stamp();
    assert!(after >= before);
    assert!(v.is_valid(before));
    v.update_validity();
    assert!(v.stamp() >= after);
}

#[test]
fn page_cache_wants_a_power_of_two_and_a_slot() {
    let mask = PageType::page_table();
    assert!(matches!(PageCache::new(0, 4, mask, NeverExpireValidator::new()), Err(Error::Internal)));
    assert!(matches!(PageCache::new(3, 4, mask, NeverExpireValidator::new()), Err(Error::Internal)));
    assert!(matches!(PageCache::new(4096, 0, mask, NeverExpireValidator::new()), Err(Error::Internal)));
    assert!(matches!(PageCache::new(4100, 4, mask, NeverExpireValidator::new()), Err(Error::Internal)));
    let cache = PageCache::new(4096, 4, mask, NeverExpireValidator::new()).unwrap();
    assert_eq!(cache.page_size(), 4096);
    assert_eq!(cache.slot_count(), 4);
    assert!(cache.is_cached_page_type(PageType::page_table()));
    assert!(!cache.is_cached_page_type(PageType::writeable()));
    assert!(PageCache::new(1, 1, mask, NeverExpireValidator::new()).is_ok());
}

#[test]
fn page_cache_slot_is_page_number_modulo_slot_count() {
    let cache = PageCache::new(4096, 4, PageType::page_table(), NeverExpireValidator::new()).unwrap();
    assert_eq!(cache.lookup(Address(0)), 0);
    assert_eq!(cache.lookup(Address(0xfff)), 0);
    assert_eq!(cache.lookup(Address(0x1000)), 1);
    assert_eq!(cache.lookup(Address(0x3abc)), 3);
    assert_eq!(cache.lookup(Address(0x4000)), 0);
    assert_eq!(cache.lookup(Address(0x9000)), 1);
    assert!(!cache.is_valid_page(Address(0)));
}

#[test]
fn page_cache_install_and_patch_change_one_slot() {
    let mut cache = PageCache::new(8, 2, PageType::page_table(), CountCacheValidator::new(1)).unwrap();
    let mut page = vec![1u8, 2, 3, 4, 5, 6, 7, 8];
    cache.install(Address(8), &mut page);
    assert_eq!(page, vec![0u8; 8]);
    assert!(cache.is_valid_page(Address(8)));
    assert!(!cache.is_valid_page(Address(0)));
    assert!(!cache.is_valid_page(Address(24)));
    cache.patch(1, 2, &[9, 9]);
    let mut back = vec![0u8; 8];
    cache.install(Address(24), &mut back);
    assert_eq!(back, vec![1, 2, 9, 9, 5, 6, 7, 8]);
    assert!(cache.is_valid_page(Address(24)));
    assert!(!cache.is_valid_page(Address(8)));
    cache.update_validity();
    assert!(!cache.is_valid_page(Address(24)));
}

#[test]
fn memory_map_made_by_push_is_ordered() {
    let mut map: MemoryMap<(Address, usize)> = MemoryMap::new();
    assert!(map.is_ordered());
    assert!(map.push(Address(0x2000), (Address(0), 0x100)));
    assert!(map.push(Address(0x1000), (Address(0), 0)));
    assert!(map.push(Address(0x1000), (Address(0), 0x10)));
    assert!(map.push(Address(u64::MAX), (Address(0), 1)));
    assert!(map.is_ordered());
    assert_eq!(map.len(), 4);
}
