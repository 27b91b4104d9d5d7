//! A backend over byte ranges held in memory.

use vstd::prelude::*;
use std::marker::PhantomData;
use std::sync::Arc;
use crate::error::Error;
use crate::mem_map::{segment_holds, to_vec, MappedBuf, MemoryMap, Segment};
use crate::phys_mem::{
    writes_of, all_read_from, apply_writes, byte_mapped, lemma_apply_no_writes, lemma_apply_one_more, patched,
    reads_from, requests_of, same_shape, unmapped_kept, Memory, PhysicalMemory, PhysicalReadData,
    PhysicalWriteData, ReadLog, WriteLog,
};
use crate::types::{Address, PhysicalAddress};

verus! {

/// Something that holds the memory map of a connector.
pub trait MemoryMapInfo<T: MappedBuf>: Sized {
    /// The map.
    spec fn map(&self) -> MemoryMap<T>;

    /// The map.
    fn mem_map(&self) -> (m: &MemoryMap<T>)
        ensures
            *m == self.map(),
    ;

    /// The map, to write the bytes behind it.
    fn mem_map_mut(&mut self) -> (m: &mut MemoryMap<T>)
        ensures
            *m == old(self).map(),
            final(self).map() == *final(m),
    ;

    /// A second value with a map of the same contents.
    fn duplicate(&self) -> (r: Self)
        ensures
            r.map().contents() == self.map().contents(),
    ;
}

impl<T: MappedBuf> MemoryMapInfo<T> for MemoryMap<T> {
    open spec fn map(&self) -> MemoryMap<T> {
        *self
    }

    fn mem_map(&self) -> (m: &MemoryMap<T>) {
        self
    }

    fn mem_map_mut(&mut self) -> (m: &mut MemoryMap<T>) {
        self
    }

    fn duplicate(&self) -> (r: Self) {
        MemoryMap::duplicate(self)
    }
}

/// The ranges of a buffer that is read and never written. Connectors made
/// from one such value share its bytes.
pub struct MMAPInfo {
    mem_map: MemoryMap<Arc<Vec<u8>>>,
}

impl MemoryMapInfo<Arc<Vec<u8>>> for MMAPInfo {
    closed spec fn map(&self) -> MemoryMap<Arc<Vec<u8>>> {
        self.mem_map
    }

    fn mem_map(&self) -> (m: &MemoryMap<Arc<Vec<u8>>>) {
        &self.mem_map
    }

    fn mem_map_mut(&mut self) -> (m: &mut MemoryMap<Arc<Vec<u8>>>) {
        &mut self.mem_map
    }

    fn duplicate(&self) -> (r: Self) {
        MMAPInfo { mem_map: self.mem_map.duplicate() }
    }
}

/// The ranges of a buffer that is read and written.
pub struct MMAPInfoMut {
    mem_map: MemoryMap<Vec<u8>>,
}

impl MemoryMapInfo<Vec<u8>> for MMAPInfoMut {
    closed spec fn map(&self) -> MemoryMap<Vec<u8>> {
        self.mem_map
    }

    fn mem_map(&self) -> (m: &MemoryMap<Vec<u8>>) {
        &self.mem_map
    }

    fn mem_map_mut(&mut self) -> (m: &mut MemoryMap<Vec<u8>>) {
        &mut self.mem_map
    }

    fn duplicate(&self) -> (r: Self) {
        MMAPInfoMut { mem_map: self.mem_map.duplicate() }
    }
}

/// Whether every range of `map` starts within a buffer of `buf_len` bytes.
pub open spec fn bufmap_in_range(buf_len: nat, map: MemoryMap<(Address, usize)>) -> bool {
    forall|i: int| 0 <= i < map.entries().len() ==> (#[trigger] map.entries()[i]).output.0.0 < buf_len
}

/// The bytes of `buf` from `start` on: `size` of them, or as many as
/// there are.
pub open spec fn buf_range(buf: Seq<u8>, start: int, size: int) -> Seq<u8> {
    if start + size <= buf.len() {
        buf.subrange(start, start + size)
    } else {
        buf.subrange(start, buf.len() as int)
    }
}

/// The contents of the map that lays the ranges of `map` over `buf`.
pub open spec fn bufmap_contents(buf: Seq<u8>, map: MemoryMap<(Address, usize)>) -> Seq<
    (Address, Seq<u8>),
> {
    Seq::new(
        map.entries().len(),
        |i: int|
            (
                map.entries()[i].base,
                buf_range(
                    buf,
                    map.entries()[i].output.0.0 as int,
                    map.entries()[i].output.1 as int,
                ),
            ),
    )
}

/// The range `range` of a buffer of `buf_len` bytes, cut off at the end
/// of the buffer.
pub open spec fn clipped(buf_len: usize, range: (Address, usize)) -> (Address, usize) {
    if range.0.0 + range.1 <= buf_len {
        range
    } else {
        (range.0, (buf_len - range.0.0) as usize)
    }
}

/// Cuts the ranges of `map` off at the end of a buffer of `buf_len`
/// bytes: each mapping of `map` names a range of the buffer by its first
/// byte and its length, and the result maps the same base to that range,
/// as far as it lies in the buffer. A range that starts at or after the
/// end of the buffer is an error.
pub fn buffer_ranges(buf_len: usize, map: &MemoryMap<(Address, usize)>) -> (r: Result<
    MemoryMap<(Address, usize)>,
    Error,
>)
    requires
        map.wf(),
    ensures
        r is Ok <==> bufmap_in_range(buf_len as nat, *map),
        r matches Err(e) ==> e == Error::OutOfRange,
        r matches Ok(m) ==> {
            &&& m.wf()
            &&& m.entries().len() == map.entries().len()
            &&& forall|i: int|
                0 <= i < map.entries().len() ==> (#[trigger] m.entries()[i]).base
                    == map.entries()[i].base && m.entries()[i].output == clipped(
                    buf_len,
                    map.entries()[i].output,
                )
        },
{
    let n: usize = map.len();
    let mut out: MemoryMap<(Address, usize)> = MemoryMap::new();
    let mut i: usize = 0;
    while i < n
        invariant
            map.wf(),
            n == map.entries().len(),
            i <= n,
            out.wf(),
            out.entries().len() == i,
            forall|k: int| 0 <= k < i ==> (#[trigger] map.entries()[k]).output.0.0 < buf_len,
            forall|k: int|
                0 <= k < i ==> (#[trigger] out.entries()[k]).base == map.entries()[k].base
                    && out.entries()[k].output == clipped(buf_len, map.entries()[k].output),
            forall|k: int| 0 <= k < i ==> (#[trigger] out.end(k)) <= map.end(k),
        decreases n - i,
    {
        let m = map.get(i);
        let output_base: u64 = m.output.0.as_u64();
        let size: usize = m.output.1;
        if output_base >= buf_len as u64 {
            return Err(Error::OutOfRange);
        }
        let start: usize = output_base as usize;
        let avail: usize = buf_len - start;
        let count: usize = if size < avail {
            size
        } else {
            avail
        };
        proof {
            assert(map.end(i as int) <= u64::MAX + 1);
            assert forall|k: int| 0 <= k < out.entries().len() implies (#[trigger] out.end(k))
                <= m.base.0 by {
                assert(map.end(k) <= map.base(i as int));
            }
        }
        let ghost before = out;
        out.append(m.base, (m.output.0, count));
        proof {
            assert forall|k: int| 0 <= k < i + 1 implies (#[trigger] out.end(k)) <= map.end(k) by {
                if k < i {
                    assert(out.entries()[k] == before.entries()[k]);
                    assert(before.end(k) <= map.end(k));
                }
            }
        }
        i += 1;
    }
    Ok(out)
}

/// Lays the ranges of `map` over `buf`: each mapping of `map` names a
/// range of `buf` by its first byte and its length, and the result maps
/// the same base to a copy of the bytes of that range, cut off at the end
/// of `buf`. A range that starts at or after the end of `buf` is an error.
pub fn map_buffer<T: MappedBuf>(buf: &[u8], map: &MemoryMap<(Address, usize)>) -> (r: Result<
    MemoryMap<T>,
    Error,
>)
    requires
        map.wf(),
    ensures
        r is Ok <==> bufmap_in_range(buf@.len(), *map),
        r matches Err(e) ==> e == Error::OutOfRange,
        r matches Ok(m) ==> m.wf() && m.contents() == bufmap_contents(buf@, *map),
{
    let buf_len: usize = buf.len();
    let ranges = match buffer_ranges(buf_len, map) {
        Ok(ranges) => ranges,
        Err(e) => {
            return Err(e);
        },
    };
    let n: usize = ranges.len();
    let mut out: MemoryMap<T> = MemoryMap::new();
    let mut i: usize = 0;
    while i < n
        invariant
            ranges.wf(),
            n == ranges.entries().len(),
            n == map.entries().len(),
            buf_len == buf@.len(),
            i <= n,
            out.wf(),
            out.entries().len() == i,
            forall|k: int| 0 <= k < n ==> (#[trigger] map.entries()[k]).output.0.0 < buf_len,
            forall|k: int|
                0 <= k < n ==> (#[trigger] ranges.entries()[k]).base == map.entries()[k].base
                    && ranges.entries()[k].output == clipped(buf_len, map.entries()[k].output),
            forall|k: int|
                0 <= k < i ==> (#[trigger] out.entries()[k]).base == map.entries()[k].base
                    && out.entries()[k].output.bytes() == buf_range(
                    buf@,
                    map.entries()[k].output.0.0 as int,
                    map.entries()[k].output.1 as int,
                ),
            forall|k: int| 0 <= k < i ==> (#[trigger] out.end(k)) == ranges.end(k),
        decreases n - i,
    {
        let m = ranges.get(i);
        assert(map.entries()[i as int].output.0.0 < buf_len);
        assert(m.output == clipped(buf_len, map.entries()[i as int].output));
        let start: usize = m.output.0.as_u64() as usize;
        let count: usize = m.output.1;
        let region = T::from_bytes(to_vec(buf, start, count));
        proof {
            region.lemma_len();
            assert(ranges.end(i as int) <= u64::MAX + 1);
            assert forall|k: int| 0 <= k < out.entries().len() implies (#[trigger] out.end(k))
                <= m.base.0 by {
                assert(ranges.end(k) <= ranges.base(i as int));
            }
        }
        let ghost before = out;
        out.append(m.base, region);
        proof {
            assert forall|k: int| 0 <= k < i + 1 implies (#[trigger] out.end(k)) == ranges.end(
                k,
            ) by {
                if k < i {
                    assert(out.entries()[k] == before.entries()[k]);
                    assert(before.end(k) == ranges.end(k));
                }
            }
        }
        i += 1;
    }
    assert(out.contents() =~= bufmap_contents(buf@, *map));
    Ok(out)
}

/// A backend over the byte ranges of a memory map. `T` is the kind of
/// bytes behind each range and `F` the value that holds the map.
pub struct MappedPhysicalMemory<T, F> {
    info: F,
    log: Ghost<ReadLog>,
    written: Ghost<WriteLog>,
    marker: PhantomData<T>,
}

/// A connector over a buffer that is read and never written.
pub type ReadMappedFilePhysicalMemory = MappedPhysicalMemory<Arc<Vec<u8>>, MMAPInfo>;

/// A connector over a buffer that is read and written.
pub type WriteMappedFilePhysicalMemory = MappedPhysicalMemory<Vec<u8>, MMAPInfoMut>;

impl<T: MappedBuf, F: MemoryMapInfo<T>> MappedPhysicalMemory<T, F> {
    /// The memory map of the connector.
    pub closed spec fn map(&self) -> MemoryMap<T> {
        self.info.map()
    }

    /// The reads that the connector has been asked for.
    pub closed spec fn log(&self) -> ReadLog {
        self.log@
    }

    /// The writes that the connector has been asked for.
    pub closed spec fn written(&self) -> WriteLog {
        self.written@
    }

    /// A connector over the map that `info` holds.
    pub fn with_info(info: F) -> (r: Self)
        ensures
            r.map() == info.map(),
            r.log() == Seq::<(PhysicalAddress, nat)>::empty(),
            r.written() == Seq::<(PhysicalAddress, Seq<u8>)>::empty(),
    {
        MappedPhysicalMemory {
            info,
            log: Ghost(Seq::empty()),
            written: Ghost(Seq::empty()),
            marker: PhantomData,
        }
    }
}

impl ReadMappedFilePhysicalMemory {
    /// A connector that reads the ranges of `buf` that `map` names: see
    /// [`map_buffer`].
    pub fn try_with_bufmap(buf: Vec<u8>, map: MemoryMap<(Address, usize)>) -> (r: Result<
        Self,
        Error,
    >)
        requires
            map.wf(),
        ensures
            r is Ok <==> bufmap_in_range(buf@.len(), map),
            r matches Err(e) ==> e == Error::OutOfRange,
            r matches Ok(c) ==> c.map().wf() && c.map().contents() == bufmap_contents(buf@, map)
                && c.log() == Seq::<(PhysicalAddress, nat)>::empty() && c.written() == Seq::<
                (PhysicalAddress, Seq<u8>),
            >::empty(),
    {
        match map_buffer::<Arc<Vec<u8>>>(buf.as_slice(), &map) {
            Ok(mem_map) => Ok(Self::with_info(MMAPInfo { mem_map })),
            Err(e) => Err(e),
        }
    }

    /// A connector that reads the ranges that `map` names of a file whose
    /// bytes are `file`, or `None` where the file could not be mapped.
    pub fn try_with_filemap(file: Option<Vec<u8>>, map: MemoryMap<(Address, usize)>) -> (r: Result<
        Self,
        Error,
    >)
        requires
            map.wf(),
        ensures
            file is None ==> r == Err::<Self, Error>(Error::ConnectorInit),
            file matches Some(buf) ==> {
                &&& r is Ok <==> bufmap_in_range(buf@.len(), map)
                &&& r matches Err(e) ==> e == Error::OutOfRange
                &&& r matches Ok(c) ==> c.map().wf() && c.map().contents() == bufmap_contents(
                    buf@,
                    map,
                ) && c.log() == Seq::<(PhysicalAddress, nat)>::empty() && c.written() == Seq::<
                    (PhysicalAddress, Seq<u8>),
                >::empty()
            },
    {
        match file {
            Some(buf) => Self::try_with_bufmap(buf, map),
            None => Err(Error::ConnectorInit),
        }
    }
}

impl WriteMappedFilePhysicalMemory {
    /// A connector that reads and writes a copy of the ranges of `buf`
    /// that `map` names: see [`map_buffer`].
    pub fn try_with_bufmap_mut(buf: Vec<u8>, map: MemoryMap<(Address, usize)>) -> (r: Result<
        Self,
        Error,
    >)
        requires
            map.wf(),
        ensures
            r is Ok <==> bufmap_in_range(buf@.len(), map),
            r matches Err(e) ==> e == Error::OutOfRange,
            r matches Ok(c) ==> c.map().wf() && c.map().contents() == bufmap_contents(buf@, map)
                && c.log() == Seq::<(PhysicalAddress, nat)>::empty() && c.written() == Seq::<
                (PhysicalAddress, Seq<u8>),
            >::empty(),
    {
        match map_buffer::<Vec<u8>>(buf.as_slice(), &map) {
            Ok(mem_map) => Ok(Self::with_info(MMAPInfoMut { mem_map })),
            Err(e) => Err(e),
        }
    }

    /// A connector that reads and writes a copy of the ranges that `map`
    /// names of a file whose bytes are `file`, or `None` where the file
    /// could not be mapped.
    pub fn try_with_filemap_mut(file: Option<Vec<u8>>, map: MemoryMap<(Address, usize)>) -> (r:
        Result<Self, Error>)
        requires
            map.wf(),
        ensures
            file is None ==> r == Err::<Self, Error>(Error::ConnectorInit),
            file matches Some(buf) ==> {
                &&& r is Ok <==> bufmap_in_range(buf@.len(), map)
                &&& r matches Err(e) ==> e == Error::OutOfRange
                &&& r matches Ok(c) ==> c.map().wf() && c.map().contents() == bufmap_contents(
                    buf@,
                    map,
                ) && c.log() == Seq::<(PhysicalAddress, nat)>::empty() && c.written() == Seq::<
                    (PhysicalAddress, Seq<u8>),
                >::empty()
            },
    {
        match file {
            Some(buf) => Self::try_with_bufmap_mut(buf, map),
            None => Err(Error::ConnectorInit),
        }
    }
}

/// Fills the buffer of `req` from the mappings of `map` and appends the
/// gaps of the request to `gaps`.
fn read_request<T: MappedBuf>(
    map: &MemoryMap<T>,
    req: &mut PhysicalReadData,
    gaps: &mut Vec<(Address, usize)>,
)
    requires
        map.wf(),
    ensures
        final(req).addr == old(req).addr,
        final(req).buf@.len() == old(req).buf@.len(),
        reads_from(map.memory(), *final(req)),
        unmapped_kept(map.memory(), *old(req), *final(req)),
        map.reports_gaps(
            old(req).addr.as_int(),
            old(req).buf@.len() as int,
            old(gaps)@,
            final(gaps)@,
        ),
{
    let addr: Address = req.addr.address;
    let len: usize = req.buf.len();
    let segs = map.map_range(addr, len, gaps);
    let n: usize = segs.len();
    let mut k: usize = 0;
    while k < n
        invariant
            map.wf(),
            n == segs@.len(),
            k <= n,
            map.splits(addr.0 as int, len as int, segs@),
            req.addr == old(req).addr,
            addr == req.addr.address,
            req.buf@.len() == len,
            len == old(req).buf@.len(),
            forall|s: int, j: int|
                0 <= s < k && (#[trigger] segs@[s]).start <= j < segs@[s].start + segs@[s].len ==> (
                #[trigger] req.buf@[j]) == map.byte_at(addr.0 + j),
            forall|j: int|
                0 <= j < len && !map.mapped(addr.0 + j) ==> (#[trigger] req.buf@[j]) == old(
                    req,
                ).buf@[j],
        decreases n - k,
    {
        let sg: Segment = segs[k];
        assert(map.segment_ok(addr.0 as int, len as int, segs@[k as int]));
        proof {
            map.entries()[sg.index as int].output.lemma_len();
        }
        let ghost prev = req.buf@;
        map.load(sg, &mut req.buf);
        proof {
            assert(map.segment_addr(sg) - sg.start == addr.0);
            assert forall|s: int, j: int|
                0 <= s < k + 1 && (#[trigger] segs@[s]).start <= j < segs@[s].start
                    + segs@[s].len implies (#[trigger] req.buf@[j]) == map.byte_at(addr.0 + j) by {
                assert(map.segment_ok(addr.0 as int, len as int, segs@[s]));
                if sg.start <= j < sg.start + sg.len {
                } else {
                    assert(req.buf@[j] == prev[j]);
                }
            }
            assert forall|j: int| 0 <= j < len && !map.mapped(addr.0 + j) implies (
            #[trigger] req.buf@[j]) == old(req).buf@[j] by {
                if sg.start <= j < sg.start + sg.len {
                    assert(map.mapped(map.segment_addr(sg) + (j - sg.start)));
                } else {
                    assert(req.buf@[j] == prev[j]);
                }
            }
        }
        k += 1;
    }
    proof {
        let mem = map.memory();
        assert forall|j: int| 0 <= j < req.buf@.len() && byte_mapped(mem, req.addr, j) implies (
        #[trigger] req.buf@[j]) == mem[(req.addr.as_int() + j) as u64] by {
            let x = addr.0 + j;
            assert(map.mapped(x));
            let s = choose|s: int| 0 <= s < segs@.len() && (#[trigger] segment_holds(segs@[s], addr.0 as int, x));
            assert(segs@[s].start <= j < segs@[s].start + segs@[s].len);
        }
        assert forall|j: int| 0 <= j < req.buf@.len() && !byte_mapped(mem, old(req).addr, j) implies (
        #[trigger] req.buf@[j]) == old(req).buf@[j] by {
            let x = addr.0 + j;
            if map.mapped(x) {
                let i = map.index_of(x);
                assert(map.covers(i, x));
                assert(map.end(i) <= u64::MAX + 1);
            }
        }
    }
}

/// Stores the bytes of `w` into the mappings of `map` and appends the
/// gaps of the request to `gaps`.
fn write_request<T: MappedBuf>(
    map: &mut MemoryMap<T>,
    w: &PhysicalWriteData,
    gaps: &mut Vec<(Address, usize)>,
)
    requires
        old(map).wf(),
        T::writable(),
    ensures
        final(map).wf(),
        old(map).same_layout(*final(map)),
        final(map).memory() == patched(old(map).memory(), w.addr.as_int(), w.buf@),
        old(map).reports_gaps(w.addr.as_int(), w.buf@.len() as int, old(gaps)@, final(gaps)@),
{
    let addr: Address = w.addr.address;
    let len: usize = w.buf.len();
    let segs = map.map_range(addr, len, gaps);
    let n: usize = segs.len();
    let mut k: usize = 0;
    while k < n
        invariant
            map.wf(),
            old(map).wf(),
            T::writable(),
            n == segs@.len(),
            k <= n,
            len == w.buf@.len(),
            addr == w.addr.address,
            old(map).splits(addr.0 as int, len as int, segs@),
            map.entries().len() == old(map).entries().len(),
            forall|i: int|
                0 <= i < map.entries().len() ==> (#[trigger] map.base(i)) == old(map).base(i),
            forall|i: int| 0 <= i < map.entries().len() ==> (#[trigger] map.end(i)) == old(map).end(i),
            map.memory().dom() == old(map).memory().dom(),
            forall|s: int, x: u64|
                0 <= s < k && (#[trigger] segment_holds(segs@[s], addr.0 as int, x as int))
                    ==> map.memory().dom().contains(x) && map.memory()[x] == w.buf@[x - addr.0],
            forall|x: u64|
                map.memory().dom().contains(x) && !(addr.0 <= x < addr.0 + len) ==> (
                #[trigger] map.memory()[x]) == old(map).memory()[x],
        decreases n - k,
    {
        let sg: Segment = segs[k];
        assert(old(map).segment_ok(addr.0 as int, len as int, segs@[k as int]));
        proof {
            map.entries()[sg.index as int].output.lemma_len();
            assert(map.end(sg.index as int) == old(map).end(sg.index as int));
            assert(map.base(sg.index as int) == old(map).base(sg.index as int));
        }
        let ghost prev = map.memory();
        let ghost at = map.segment_addr(sg);
        let ok = map.store(sg, w.buf);
        proof {
            assert(at == addr.0 + sg.start);
            assert(map.memory() == patched(
                prev,
                at,
                w.buf@.subrange(sg.start as int, sg.start + sg.len),
            ));
            assert(map.memory().dom() =~= old(map).memory().dom());
            assert forall|s: int, x: u64|
                0 <= s < k + 1 && (#[trigger] segment_holds(
                    segs@[s],
                    addr.0 as int,
                    x as int,
                )) implies map.memory().dom().contains(x) && map.memory()[x] == w.buf@[x
                    - addr.0] by {
                assert(old(map).segment_ok(addr.0 as int, len as int, segs@[s]));
                assert(old(map).covers(segs@[s].index as int, x as int));
                assert(old(map).mapped(x as int));
                assert(prev.dom().contains(x));
                if segment_holds(sg, addr.0 as int, x as int) {
                } else {
                    assert(map.memory()[x] == prev[x]);
                }
            }
        }
        k += 1;
    }
    proof {
        let want = patched(old(map).memory(), w.addr.as_int(), w.buf@);
        assert forall|x: u64| want.dom().contains(x) implies map.memory()[x] == want[x] by {
            if addr.0 <= x < addr.0 + len {
                assert(old(map).mapped(x as int));
                let s = choose|s: int|
                    0 <= s < segs@.len() && (#[trigger] segment_holds(
                        segs@[s],
                        addr.0 as int,
                        x as int,
                    ));
                assert(segment_holds(segs@[s], addr.0 as int, x as int));
            }
        }
        assert(map.memory() =~= want);
    }
}

/// Stores the bytes of each write of `data` into the mappings of `map`,
/// in the order of the batch.
fn write_batch<T: MappedBuf>(map: &mut MemoryMap<T>, data: &[PhysicalWriteData])
    requires
        old(map).wf(),
        T::writable(),
    ensures
        final(map).wf(),
        old(map).same_layout(*final(map)),
        final(map).memory() == apply_writes(old(map).memory(), data@),
{
    let n: usize = data.len();
    let mut void: Vec<(Address, usize)> = Vec::new();
    let mut i: usize = 0;
    proof {
        lemma_apply_no_writes(map.memory());
        assert(data@.take(0) =~= Seq::<PhysicalWriteData>::empty());
    }
    while i < n
        invariant
            map.wf(),
            T::writable(),
            n == data@.len(),
            i <= n,
            old(map).same_layout(*map),
            map.memory() == apply_writes(old(map).memory(), data@.take(i as int)),
        decreases n - i,
    {
        let ghost before = *map;
        write_request(map, &data[i], &mut void);
        proof {
            assert forall|k: int| 0 <= k < old(map).entries().len() implies old(map).base(k)
                == map.base(k) && old(map).end(k) == map.end(k) by {
                assert(old(map).base(k) == before.base(k));
                assert(old(map).end(k) == before.end(k));
                assert(before.base(k) == map.base(k));
                assert(before.end(k) == map.end(k));
            }
            lemma_apply_one_more(old(map).memory(), data@.take(i as int), data@[i as int]);
            assert(data@.take(i as int).push(data@[i as int]) =~= data@.take(i + 1));
        }
        i += 1;
    }
    assert(data@.take(n as int) =~= data@);
}

impl<T: MappedBuf, F: MemoryMapInfo<T>> MappedPhysicalMemory<T, F> {
    /// Fills the buffer of each entry with the bytes at its address, as
    /// far as the map holds them, and leaves the rest of the buffer as it
    /// was. For each entry in turn, the runs of its addresses that the map
    /// does not hold are appended to `gaps` as one list.
    pub fn phys_read_raw_list_gaps(
        &mut self,
        data: &mut [PhysicalReadData],
        gaps: &mut Vec<Vec<(Address, usize)>>,
    )
        requires
            old(self).map().wf(),
        ensures
            final(self).map() == old(self).map(),
            final(self).log() == old(self).log() + requests_of(old(data)@),
            final(self).written() == old(self).written(),
            same_shape(old(data)@, final(data)@),
            all_read_from(old(self).map().memory(), final(data)@),
            forall|i: int|
                0 <= i < final(data)@.len() ==> unmapped_kept(
                    old(self).map().memory(),
                    old(data)@[i],
                    (#[trigger] final(data)@[i]),
                ),
            final(gaps)@.len() == old(gaps)@.len() + old(data)@.len(),
            final(gaps)@.subrange(0, old(gaps)@.len() as int) == old(gaps)@,
            forall|i: int|
                0 <= i < old(data)@.len() ==> old(self).map().reports_gaps(
                    old(data)@[i].addr.as_int(),
                    old(data)@[i].buf@.len() as int,
                    Seq::empty(),
                    (#[trigger] final(gaps)@[old(gaps)@.len() + i])@,
                ),
    {
        let map = self.info.mem_map();
        let n: usize = data.len();
        let ghost g0: int = gaps@.len() as int;
        let mut i: usize = 0;
        while i < n
            invariant
                map.wf(),
                n == data@.len(),
                n == old(data)@.len(),
                i <= n,
                g0 == old(gaps)@.len(),
                gaps@.len() == g0 + i,
                gaps@.subrange(0, g0) == old(gaps)@,
                forall|k: int|
                    0 <= k < n ==> (#[trigger] data@[k]).addr == old(data)@[k].addr
                        && data@[k].buf@.len() == old(data)@[k].buf@.len(),
                forall|k: int| 0 <= k < i ==> reads_from(map.memory(), (#[trigger] data@[k])),
                forall|k: int|
                    0 <= k < i ==> unmapped_kept(map.memory(), old(data)@[k], (#[trigger] data@[k])),
                forall|k: int| i <= k < n ==> (#[trigger] data@[k]) == old(data)@[k],
                forall|k: int|
                    0 <= k < i ==> map.reports_gaps(
                        old(data)@[k].addr.as_int(),
                        old(data)@[k].buf@.len() as int,
                        Seq::empty(),
                        (#[trigger] gaps@[g0 + k])@,
                    ),
            decreases n - i,
        {
            let mut found: Vec<(Address, usize)> = Vec::new();
            read_request(map, &mut data[i], &mut found);
            let ghost before = gaps@;
            gaps.push(found);
            proof {
                assert(gaps@.subrange(0, g0) =~= before.subrange(0, g0));
                assert forall|k: int| 0 <= k < i + 1 implies map.reports_gaps(
                    old(data)@[k].addr.as_int(),
                    old(data)@[k].buf@.len() as int,
                    Seq::empty(),
                    (#[trigger] gaps@[g0 + k])@,
                ) by {
                    if k < i {
                        assert(gaps@[g0 + k] == before[g0 + k]);
                    }
                }
            }
            i += 1;
        }
        proof {
            self.log@ = self.log@ + requests_of(old(data)@);
        }
    }

    /// As many connectors over the memory of this one as `size_hint`
    /// says: one for each worker. Each has the map of `self`, and for the
    /// bytes behind it what `MappedBuf::duplicate` gives: a second handle
    /// on shared bytes, such as `Arc<Vec<u8>>`, and a copy of owned bytes,
    /// such as `Vec<u8>`. So the members of a pool over owned bytes start
    /// from the same memory and a write through one of them reaches that
    /// member alone; workers that write are to be given parts of the
    /// address space of their own. Bytes that several writers are to
    /// share take a kind of bytes that guards them with a lock.
    pub fn make_phys_pool(&self, size_hint: usize) -> (pool: Vec<Self>)
        ensures
            pool@.len() == size_hint,
            forall|i: int|
                0 <= i < pool@.len() ==> (#[trigger] pool@[i]).map().contents()
                    == self.map().contents(),
            self.inv() ==> forall|i: int|
                0 <= i < pool@.len() ==> (#[trigger] pool@[i]).inv() && pool@[i].memory()
                    == self.memory() && pool@[i].faithful(),
    {
        let mut pool: Vec<Self> = Vec::new();
        let mut i: usize = 0;
        while i < size_hint
            invariant
                i <= size_hint,
                pool@.len() == i,
                forall|k: int|
                    0 <= k < pool@.len() ==> (#[trigger] pool@[k]).map().contents()
                        == self.map().contents(),
            decreases size_hint - i,
        {
            pool.push(self.clone());
            i += 1;
        }
        proof {
            if self.inv() {
                assert forall|k: int| 0 <= k < pool@.len() implies (#[trigger] pool@[k]).inv()
                    && pool@[k].memory() == self.memory() && pool@[k].faithful() by {
                    self.map().lemma_same_contents(&pool@[k].map());
                }
            }
        }
        pool
    }
}

impl<T: MappedBuf, F: MemoryMapInfo<T>> Clone for MappedPhysicalMemory<T, F> {
    /// A connector over the same memory, with the same log.
    fn clone(&self) -> (r: Self)
        ensures
            r.map().contents() == self.map().contents(),
            r.log() == self.log(),
            r.written() == self.written(),
    {
        MappedPhysicalMemory {
            info: self.info.duplicate(),
            log: Ghost(self.log@),
            written: Ghost(self.written@),
            marker: PhantomData,
        }
    }
}

impl<T: MappedBuf, F: MemoryMapInfo<T>> PhysicalMemory for MappedPhysicalMemory<T, F> {
    open spec fn inv(&self) -> bool {
        self.map().wf()
    }

    open spec fn memory(&self) -> Memory {
        self.map().memory()
    }

    open spec fn read_log(&self) -> ReadLog {
        self.log()
    }

    open spec fn write_log(&self) -> WriteLog {
        self.written()
    }

    open spec fn faithful(&self) -> bool {
        true
    }

    open spec fn admits_write(&self, addr: PhysicalAddress, len: usize) -> bool {
        true
    }

    open spec fn reads_cannot_fail(&self) -> bool {
        true
    }

    open spec fn writes_cannot_fail(&self) -> bool {
        T::writable()
    }

    /// Never fails. A buffer keeps what it held at each address that the
    /// map does not hold.
    fn phys_read_raw_list(&mut self, data: &mut [PhysicalReadData]) -> (r: Result<(), Error>)
        ensures
            r is Ok,
            final(self).map() == old(self).map(),
            forall|i: int|
                0 <= i < final(data)@.len() ==> unmapped_kept(
                    old(self).memory(),
                    old(data)@[i],
                    (#[trigger] final(data)@[i]),
                ),
    {
        let mut void: Vec<Vec<(Address, usize)>> = Vec::new();
        self.phys_read_raw_list_gaps(data, &mut void);
        Ok(())
    }

    /// Fails, with `Error::Unsupported` and before it stores a byte, where
    /// the batch holds a write and the bytes behind the map cannot be
    /// written; succeeds otherwise. Bytes at addresses that the map does
    /// not hold are dropped. The mappings keep their first addresses and
    /// their lengths: a write changes bytes only.
    fn phys_write_raw_list(&mut self, data: &[PhysicalWriteData]) -> (r: Result<(), Error>)
        ensures
            old(self).map().same_layout(final(self).map()),
            r is Err <==> !T::writable() && data@.len() > 0,
            r matches Err(e) ==> e == Error::Unsupported && final(self).map() == old(self).map(),
    {
        proof {
            self.written@ = self.written@ + writes_of(data@);
        }
        if data.len() == 0 {
            proof {
                lemma_apply_no_writes(self.memory());
                assert(data@ =~= Seq::<PhysicalWriteData>::empty());
            }
            return Ok(());
        }
        if !T::is_writable() {
            return Err(Error::Unsupported);
        }
        let map = self.info.mem_map_mut();
        write_batch(map, data);
        Ok(())
    }
}

} // verus!
