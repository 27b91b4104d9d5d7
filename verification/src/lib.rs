//! Batched physical-memory access with a page-granular cache.
//!
//! A backend implements [`PhysicalMemory`]: it reads and writes batches of
//! byte ranges of a target's physical address space. [`MappedPhysicalMemory`]
//! is a backend over byte ranges held in memory, laid out by a [`MemoryMap`].
//! [`CachedMemoryAccess`] puts a [`PageCache`] in front of any backend and is
//! a backend again.

pub mod cached_memory_access;
pub mod error;
pub mod mem_map;
pub mod mmap;
pub mod page_cache;
pub mod phys_mem;
pub mod scratch;
pub mod types;
pub mod validator;

pub use cached_memory_access::CachedMemoryAccess;
pub use error::Error;
pub use mem_map::{Bytes, Length, MappedBuf, MappedLen, Mapping, MemoryMap, Segment};
pub use mmap::{
    MMAPInfo, MMAPInfoMut, MappedPhysicalMemory, MemoryMapInfo, ReadMappedFilePhysicalMemory,
    WriteMappedFilePhysicalMemory,
};
pub use page_cache::{CacheSlot, PageCache};
pub use phys_mem::{
    Memory, PhysicalMemory, PhysicalReadData, PhysicalWriteData, ReadLog, WriteLog,
};
pub use types::{Address, PageType, PhysicalAddress};
pub use validator::{CacheValidator, CountCacheValidator, NeverExpireValidator, TimedCacheValidator};
