use flow_core::mmap::buffer_ranges;
use flow_core::{
    Address, Error, MappedPhysicalMemory, MemoryMap, PageType, PhysicalAddress, PhysicalMemory,
    PhysicalReadData, PhysicalWriteData, ReadMappedFilePhysicalMemory,
    WriteMappedFilePhysicalMemory,
};
use std::sync::Arc;

fn phys(addr: u64) -> PhysicalAddress {
    PhysicalAddress::with_page(Address(addr), PageType::none())
}

fn read(addr: u64, len: usize) -> PhysicalReadData {
    PhysicalReadData { addr: phys(addr), buf: vec![0xee; len] }
}

fn sample_buffer() -> Vec<u8> {
    (0..=255u8).collect()
}

fn sample_map() -> MemoryMap<(Address, usize)> {
    let mut map = MemoryMap::new();
    assert!(map.push(Address(0x1000), (Address(0), 0x10)));
    assert!(map.push(Address(0x2000), (Address(0x80), 0x20)));
    map
}

#[test]
fn connector_reads_mapped_bytes() {
    let mut c = WriteMappedFilePhysicalMemory::try_with_bufmap_mut(sample_buffer(), sample_map()).unwrap();
    let mut data = vec![read(0x1004, 4), read(0x2000, 3), read(0x201f, 1)];
    assert_eq!(c.phys_read_raw_list(&mut data), Ok(()));
    assert_eq!(data[0].buf, vec![4, 5, 6, 7]);
    assert_eq!(data[1].buf, vec![0x80, 0x81, 0x82]);
    assert_eq!(data[2].buf, vec![0x9f]);
    assert_eq!(data[0].addr, phys(0x1004));
}

#[test]
fn connector_leaves_unmapped_bytes_as_they_were() {
    let mut c = ReadMappedFilePhysicalMemory::try_with_bufmap(sample_buffer(), sample_map()).unwrap();
    let mut data = vec![read(0x0ffe, 4), read(0x100e, 4), read(0x5000, 2)];
    assert_eq!(c.phys_read_raw_list(&mut data), Ok(()));
    assert_eq!(data[0].buf, vec![0xee, 0xee, 0, 1]);
    assert_eq!(data[1].buf, vec![14, 15, 0xee, 0xee]);
    assert_eq!(data[2].buf, vec![0xee, 0xee]);
}

#[test]
fn connector_reports_gaps_and_still_reads_the_rest() {
    let mut c = ReadMappedFilePhysicalMemory::try_with_bufmap(sample_buffer(), sample_map()).unwrap();
    let mut data = vec![read(0x1000, 4), read(0x0ffc, 0x18), read(0x8000, 8)];
    let mut gaps = Vec::new();
    c.phys_read_raw_list_gaps(&mut data, &mut gaps);
    assert_eq!(data[0].buf, vec![0, 1, 2, 3]);
    let mut want = vec![0xee; 4];
    want.extend(0..16u8);
    want.extend(vec![0xee; 4]);
    assert_eq!(data[1].buf, want);
    assert_eq!(data[2].buf, vec![0xee; 8]);
    assert_eq!(
        gaps,
        vec![
            vec![],
            vec![(Address(0x0ffc), 4), (Address(0x1010), 4)],
            vec![(Address(0x8000), 8)],
        ]
    );
}

#[test]
fn connector_write_then_read_returns_what_was_written() {
    let mut c = WriteMappedFilePhysicalMemory::try_with_bufmap_mut(sample_buffer(), sample_map()).unwrap();
    let bytes = [0xaa, 0xbb, 0xcc];
    let writes = vec![PhysicalWriteData { addr: phys(0x2010), buf: &bytes }];
    assert_eq!(c.phys_write_raw_list(&writes), Ok(()));
    let mut data = vec![read(0x200f, 5)];
    assert_eq!(c.phys_read_raw_list(&mut data), Ok(()));
    assert_eq!(data[0].buf, vec![0x8f, 0xaa, 0xbb, 0xcc, 0x93]);
}

#[test]
fn connector_later_write_wins_where_writes_overlap() {
    let mut c = WriteMappedFilePhysicalMemory::try_with_bufmap_mut(sample_buffer(), sample_map()).unwrap();
    let first = [1u8, 1, 1, 1];
    let second = [2u8, 2];
    let writes = vec![
        PhysicalWriteData { addr: phys(0x1000), buf: &first },
        PhysicalWriteData { addr: phys(0x1002), buf: &second },
    ];
    assert_eq!(c.phys_write_raw_list(&writes), Ok(()));
    let mut data = vec![read(0x1000, 5)];
    assert_eq!(c.phys_read_raw_list(&mut data), Ok(()));
    assert_eq!(data[0].buf, vec![1, 1, 2, 2, 4]);
}

#[test]
fn connector_drops_written_bytes_that_are_not_mapped() {
    let mut c = WriteMappedFilePhysicalMemory::try_with_bufmap_mut(sample_buffer(), sample_map()).unwrap();
    let bytes = [7u8; 8];
    let writes = vec![PhysicalWriteData { addr: phys(0x100c), buf: &bytes }];
    assert_eq!(c.phys_write_raw_list(&writes), Ok(()));
    let mut data = vec![read(0x100a, 8)];
    assert_eq!(c.phys_read_raw_list(&mut data), Ok(()));
    assert_eq!(data[0].buf, vec![10, 11, 7, 7, 7, 7, 0xee, 0xee]);
}

#[test]
fn read_only_connector_refuses_every_write() {
    let mut c = ReadMappedFilePhysicalMemory::try_with_bufmap(sample_buffer(), sample_map()).unwrap();
    let bytes = [0xaa];
    let mapped = vec![PhysicalWriteData { addr: phys(0x1000), buf: &bytes }];
    assert_eq!(c.phys_write_raw_list(&mapped), Err(Error::Unsupported));
    let unmapped = vec![PhysicalWriteData { addr: phys(0x9000), buf: &bytes }];
    assert_eq!(c.phys_write_raw_list(&unmapped), Err(Error::Unsupported));
    let nothing: Vec<PhysicalWriteData> = Vec::new();
    assert_eq!(c.phys_write_raw_list(&nothing), Ok(()));
    let mut data = vec![read(0x1000, 1)];
    assert_eq!(c.phys_read_raw_list(&mut data), Ok(()));
    assert_eq!(data[0].buf, vec![0]);
}

#[test]
fn bufmap_out_of_range_is_an_error() {
    let mut map = MemoryMap::new();
    assert!(map.push(Address(0x1000), (Address(0), 0x10)));
    assert!(map.push(Address(0x2000), (Address(256), 1)));
    assert!(matches!(
        ReadMappedFilePhysicalMemory::try_with_bufmap(sample_buffer(), map),
        Err(Error::OutOfRange)
    ));
    let mut map = MemoryMap::new();
    assert!(map.push(Address(0x2000), (Address(1), 0)));
    assert!(matches!(
        WriteMappedFilePhysicalMemory::try_with_bufmap_mut(Vec::new(), map),
        Err(Error::OutOfRange)
    ));
    let empty: MemoryMap<(Address, usize)> = MemoryMap::new();
    assert!(WriteMappedFilePhysicalMemory::try_with_bufmap_mut(Vec::new(), empty).is_ok());
}

#[test]
fn bufmap_range_is_cut_off_at_the_end_of_the_buffer() {
    let mut map = MemoryMap::new();
    assert!(map.push(Address(0x1000), (Address(254), 0x10)));
    let mut c = ReadMappedFilePhysicalMemory::try_with_bufmap(sample_buffer(), map).unwrap();
    let mut data = vec![read(0x1000, 4)];
    let mut gaps = Vec::new();
    c.phys_read_raw_list_gaps(&mut data, &mut gaps);
    assert_eq!(data[0].buf, vec![254, 255, 0xee, 0xee]);
    assert_eq!(gaps, vec![vec![(Address(0x1002), 2)]]);
}

#[test]
fn filemap_that_could_not_be_mapped_is_an_error() {
    assert!(matches!(
        ReadMappedFilePhysicalMemory::try_with_filemap(None, sample_map()),
        Err(Error::ConnectorInit)
    ));
    assert!(matches!(
        WriteMappedFilePhysicalMemory::try_with_filemap_mut(None, sample_map()),
        Err(Error::ConnectorInit)
    ));
    let mut c = ReadMappedFilePhysicalMemory::try_with_filemap(Some(sample_buffer()), sample_map()).unwrap();
    let mut data = vec![read(0x2001, 2)];
    assert_eq!(c.phys_read_raw_list(&mut data), Ok(()));
    assert_eq!(data[0].buf, vec![0x81, 0x82]);
    let mut map = MemoryMap::new();
    assert!(map.push(Address(0), (Address(300), 1)));
    assert!(matches!(
        WriteMappedFilePhysicalMemory::try_with_filemap_mut(Some(sample_buffer()), map),
        Err(Error::OutOfRange)
    ));
}

#[test]
fn with_info_takes_a_map_of_owned_bytes() {
    let mut map: MemoryMap<Vec<u8>> = MemoryMap::new();
    assert!(map.push(Address(0x10), vec![1, 2, 3, 4]));
    assert!(map.push(Address(0x20), vec![5, 6]));
    let mut c: MappedPhysicalMemory<Vec<u8>, MemoryMap<Vec<u8>>> = MappedPhysicalMemory::with_info(map);
    let bytes = [9u8];
    let writes = vec![PhysicalWriteData { addr: phys(0x21), buf: &bytes }];
    assert_eq!(c.phys_write_raw_list(&writes), Ok(()));
    let mut data = vec![read(0x12, 2), read(0x20, 2)];
    assert_eq!(c.phys_read_raw_list(&mut data), Ok(()));
    assert_eq!(data[0].buf, vec![3, 4]);
    assert_eq!(data[1].buf, vec![5, 9]);
}

#[test]
fn with_info_over_shared_bytes_is_read_only() {
    let mut map: MemoryMap<Arc<Vec<u8>>> = MemoryMap::new();
    assert!(map.push(Address(0x10), Arc::new(vec![1, 2, 3, 4])));
    let mut c: MappedPhysicalMemory<Arc<Vec<u8>>, MemoryMap<Arc<Vec<u8>>>> =
        MappedPhysicalMemory::with_info(map);
    let bytes = [9u8];
    let writes = vec![PhysicalWriteData { addr: phys(0x10), buf: &bytes }];
    assert_eq!(c.phys_write_raw_list(&writes), Err(Error::Unsupported));
    let mut data = vec![read(0x10, 4)];
    assert_eq!(c.phys_read_raw_list(&mut data), Ok(()));
    assert_eq!(data[0].buf, vec![1, 2, 3, 4]);
}

#[test]
fn pool_members_read_the_same_memory_on_their_own() {
    let c = ReadMappedFilePhysicalMemory::try_with_bufmap(sample_buffer(), sample_map()).unwrap();
    let mut pool = c.make_phys_pool(3);
    assert_eq!(pool.len(), 3);
    assert!(c.make_phys_pool(0).is_empty());
    let mut low = vec![read(0x1000, 4)];
    let mut high = vec![read(0x2010, 4)];
    let (first, rest) = pool.split_at_mut(1);
    assert_eq!(first[0].phys_read_raw_list(&mut low), Ok(()));
    assert_eq!(rest[0].phys_read_raw_list(&mut high), Ok(()));
    assert_eq!(low[0].buf, vec![0, 1, 2, 3]);
    assert_eq!(high[0].buf, vec![0x90, 0x91, 0x92, 0x93]);
    let mut again = vec![read(0x1000, 4), read(0x2010, 4)];
    assert_eq!(pool[2].phys_read_raw_list(&mut again), Ok(()));
    assert_eq!(again[0].buf, low[0].buf);
    assert_eq!(again[1].buf, high[0].buf);
}

#[test]
fn pool_members_of_a_writable_connector_hold_copies() {
    let mut c = WriteMappedFilePhysicalMemory::try_with_bufmap_mut(sample_buffer(), sample_map()).unwrap();
    let mut pool = c.make_phys_pool(2);
    let bytes = [0x55u8];
    let writes = vec![PhysicalWriteData { addr: phys(0x1000), buf: &bytes }];
    assert_eq!(pool[0].phys_write_raw_list(&writes), Ok(()));
    let mut a = vec![read(0x1000, 1)];
    let mut b = vec![read(0x1000, 1)];
    let mut o = vec![read(0x1000, 1)];
    assert_eq!(pool[0].phys_read_raw_list(&mut a), Ok(()));
    assert_eq!(pool[1].phys_read_raw_list(&mut b), Ok(()));
    assert_eq!(c.phys_read_raw_list(&mut o), Ok(()));
    assert_eq!(a[0].buf, vec![0x55]);
    assert_eq!(b[0].buf, vec![0]);
    assert_eq!(o[0].buf, vec![0]);
    let copy = c.clone();
    assert_eq!(copy.make_phys_pool(1).len(), 1);
}

#[test]
fn buffer_ranges_cuts_ranges_off_at_the_end_of_the_buffer() {
    let mut map = MemoryMap::new();
    assert!(map.push(Address(0x1000), (Address(0), 0x10)));
    assert!(map.push(Address(0x2000), (Address(0xf8), 0x20)));
    assert!(map.push(Address(0x3000), (Address(0xff), 0)));
    let ranges = buffer_ranges(0x100, &map).unwrap();
    assert_eq!(ranges.len(), 3);
    assert_eq!(ranges.get(0).base, Address(0x1000));
    assert_eq!(ranges.get(0).output, (Address(0), 0x10));
    assert_eq!(ranges.get(1).base, Address(0x2000));
    assert_eq!(ranges.get(1).output, (Address(0xf8), 8));
    assert_eq!(ranges.get(2).output, (Address(0xff), 0));
    assert!(matches!(buffer_ranges(0xff, &map), Err(Error::OutOfRange)));
    assert!(matches!(buffer_ranges(0, &map), Err(Error::OutOfRange)));
    let empty: MemoryMap<(Address, usize)> = MemoryMap::new();
    assert_eq!(buffer_ranges(0, &empty).unwrap().len(), 0);
}

#[test]
fn connector_over_bytes_that_can_be_written_never_fails() {
    let mut c = WriteMappedFilePhysicalMemory::try_with_bufmap_mut(sample_buffer(), sample_map()).unwrap();
    let bytes = [1u8, 2, 3];
    let writes = vec![
        PhysicalWriteData { addr: phys(0x9000), buf: &bytes },
        PhysicalWriteData { addr: phys(0x100f), buf: &bytes },
    ];
    assert_eq!(c.phys_write_raw_list(&writes), Ok(()));
    let mut data = vec![read(0x100e, 4), read(0x2000, 2)];
    assert_eq!(c.phys_read_raw_list(&mut data), Ok(()));
    assert_eq!(data[0].buf, vec![14, 1, 0xee, 0xee]);
    assert_eq!(data[1].buf, vec![0x80, 0x81]);
}
