//! The contract of batched reads and writes of physical memory.

use vstd::prelude::*;
use crate::error::Error;
use crate::types::PhysicalAddress;

verus! {

/// One read of a batch: `buf` is to be filled with the bytes at `addr`.
pub struct PhysicalReadData {
    pub addr: PhysicalAddress,
    pub buf: Vec<u8>,
}

/// One write of a batch: the bytes of `buf` are to be stored at `addr`.
pub struct PhysicalWriteData<'a> {
    pub addr: PhysicalAddress,
    pub buf: &'a [u8],
}

/// The reads that a backend has been asked for, oldest first: the address
/// and the length of each.
pub type ReadLog = Seq<(PhysicalAddress, nat)>;

/// The writes that a backend has been asked for, oldest first: the
/// address and the bytes of each.
pub type WriteLog = Seq<(PhysicalAddress, Seq<u8>)>;

/// The log entries of one batch of writes.
pub open spec fn writes_of(data: Seq<PhysicalWriteData>) -> WriteLog {
    Seq::new(data.len(), |i: int| (data[i].addr, data[i].buf@))
}

/// The log entries of one batch of reads.
pub open spec fn requests_of(data: Seq<PhysicalReadData>) -> ReadLog {
    Seq::new(data.len(), |i: int| (data[i].addr, data[i].buf@.len()))
}

/// Whether two batches hold the same addresses and buffer lengths.
pub open spec fn same_shape(a: Seq<PhysicalReadData>, b: Seq<PhysicalReadData>) -> bool {
    &&& a.len() == b.len()
    &&& forall|i: int|
        0 <= i < a.len() ==> (#[trigger] b[i]).addr == a[i].addr && b[i].buf@.len()
            == a[i].buf@.len()
}

/// The sequence `dst` with `src` written over it from index `at` on.
pub open spec fn splice(dst: Seq<u8>, at: int, src: Seq<u8>) -> Seq<u8> {
    Seq::new(
        dst.len(),
        |j: int|
            if at <= j < at + src.len() {
                src[j - at]
            } else {
                dst[j]
            },
    )
}

/// The memory of a backend: the addresses it maps, and the byte at each.
pub type Memory = Map<u64, u8>;

/// Whether byte `j` of a request at `addr` lies at an address that `mem`
/// maps.
pub open spec fn byte_mapped(mem: Memory, addr: PhysicalAddress, j: int) -> bool {
    addr.as_int() + j <= u64::MAX && mem.dom().contains((addr.as_int() + j) as u64)
}

/// Whether the buffer of `req` holds, at every address that `mem` maps,
/// the byte that `mem` holds there.
pub open spec fn reads_from(mem: Memory, req: PhysicalReadData) -> bool {
    forall|j: int|
        0 <= j < req.buf@.len() && byte_mapped(mem, req.addr, j) ==> (#[trigger] req.buf@[j])
            == mem[(req.addr.as_int() + j) as u64]
}

/// Whether every buffer of `data` holds, at every address that `mem`
/// maps, the byte that `mem` holds there.
pub open spec fn all_read_from(mem: Memory, data: Seq<PhysicalReadData>) -> bool {
    forall|i: int| 0 <= i < data.len() ==> reads_from(mem, (#[trigger] data[i]))
}

/// Whether the buffer of `after` is that of `before` at every address
/// that `mem` does not map.
pub open spec fn unmapped_kept(mem: Memory, before: PhysicalReadData, after: PhysicalReadData) -> bool {
    forall|j: int|
        0 <= j < after.buf@.len() && !byte_mapped(mem, before.addr, j) ==> (#[trigger] after.buf@[j])
            == before.buf@[j]
}

/// Whether the write `w` stores a byte at the address `x`.
pub open spec fn write_holds(w: PhysicalWriteData, x: u64) -> bool {
    w.addr.as_int() <= x < w.addr.as_int() + w.buf@.len()
}

/// The byte at `x` once the writes of `data` have been applied in order
/// to `mem`: that of the last write that stores one there, or else the
/// byte that `mem` holds.
pub open spec fn byte_after_writes(mem: Memory, data: Seq<PhysicalWriteData>, x: u64) -> u8
    decreases data.len(),
{
    if data.len() == 0 {
        mem[x]
    } else if write_holds(data.last(), x) {
        data.last().buf@[x - data.last().addr.as_int()]
    } else {
        byte_after_writes(mem, data.drop_last(), x)
    }
}

/// The memory `mem` with the writes of `data` applied in order. A write
/// changes mapped addresses only.
pub open spec fn apply_writes(mem: Memory, data: Seq<PhysicalWriteData>) -> Memory {
    Map::new(|x: u64| mem.dom().contains(x), |x: u64| byte_after_writes(mem, data, x))
}

/// The memory `mem` with `bytes` stored from the address `at` on, at the
/// addresses that `mem` maps.
pub open spec fn patched(mem: Memory, at: int, bytes: Seq<u8>) -> Memory {
    Map::new(
        |x: u64| mem.dom().contains(x),
        |x: u64|
            if at <= x < at + bytes.len() {
                bytes[x - at]
            } else {
                mem[x]
            },
    )
}

/// No write leaves the memory as it is.
pub proof fn lemma_apply_no_writes(mem: Memory)
    ensures
        apply_writes(mem, Seq::<PhysicalWriteData>::empty()) == mem,
{
    assert(apply_writes(mem, Seq::<PhysicalWriteData>::empty()) =~= mem);
}

/// To apply a batch and then one more write is to apply the longer batch.
pub proof fn lemma_apply_one_more(mem: Memory, data: Seq<PhysicalWriteData>, w: PhysicalWriteData)
    ensures
        apply_writes(mem, data.push(w)) == patched(apply_writes(mem, data), w.addr.as_int(), w.buf@),
{
    assert(data.push(w).last() == w);
    assert(data.push(w).drop_last() =~= data);
    assert(apply_writes(mem, data.push(w)) =~= patched(
        apply_writes(mem, data),
        w.addr.as_int(),
        w.buf@,
    ));
}

/// A backend that reads and writes physical memory in batches.
///
/// The entries of a batch may come in any order, overlap or touch; each is
/// resolved on its own. A backend is faithful while its reads return its
/// memory. Whether a call succeeds is for the backend to decide; a backend
/// whose reads, or whose writes, cannot fail says so of itself, and such a
/// call of it then succeeds.
pub trait PhysicalMemory: Sized {
    /// What holds of the backend between calls.
    spec fn inv(&self) -> bool;

    /// The memory of the backend.
    spec fn memory(&self) -> Memory;

    /// The reads that the backend has been asked for.
    spec fn read_log(&self) -> ReadLog;

    /// The writes that the backend has been asked for.
    spec fn write_log(&self) -> WriteLog;

    /// Whether reads return the memory of the backend.
    spec fn faithful(&self) -> bool;

    /// Whether a write of `len` bytes at `addr` keeps the backend faithful.
    spec fn admits_write(&self, addr: PhysicalAddress, len: usize) -> bool;

    /// Whether no read of the backend fails.
    spec fn reads_cannot_fail(&self) -> bool;

    /// Whether no write of the backend fails.
    spec fn writes_cannot_fail(&self) -> bool;

    /// Fills the buffer of each entry with the bytes at its address. What
    /// a buffer holds at an address that is not mapped is left open. The
    /// memory stays as it is.
    fn phys_read_raw_list(&mut self, data: &mut [PhysicalReadData]) -> (r: Result<(), Error>)
        requires
            old(self).inv(),
        ensures
            final(self).inv(),
            final(self).memory() == old(self).memory(),
            same_shape(old(data)@, final(data)@),
            final(self).read_log() == old(self).read_log() + requests_of(old(data)@),
            final(self).write_log() == old(self).write_log(),
            final(self).reads_cannot_fail() == old(self).reads_cannot_fail(),
            final(self).writes_cannot_fail() == old(self).writes_cannot_fail(),
            old(self).reads_cannot_fail() ==> r is Ok,
            old(self).faithful() ==> final(self).faithful(),
            r is Ok && old(self).faithful() ==> all_read_from(old(self).memory(), final(data)@),
    ;

    /// Stores the bytes of each entry at its address, in the order of the
    /// batch. A call that fails leaves the memory as it was. Every entry
    /// of the batch counts as asked for, whether the call fails or not.
    fn phys_write_raw_list(&mut self, data: &[PhysicalWriteData]) -> (r: Result<(), Error>)
        requires
            old(self).inv(),
        ensures
            final(self).inv(),
            final(self).read_log() == old(self).read_log(),
            final(self).write_log() == old(self).write_log() + writes_of(data@),
            final(self).reads_cannot_fail() == old(self).reads_cannot_fail(),
            final(self).writes_cannot_fail() == old(self).writes_cannot_fail(),
            old(self).writes_cannot_fail() ==> r is Ok,
            r is Ok ==> final(self).memory() == apply_writes(old(self).memory(), data@),
            r is Err ==> final(self).memory() == old(self).memory(),
            old(self).faithful() && (forall|i: int|
                0 <= i < data@.len() ==> old(self).admits_write(
                    (#[trigger] data@[i]).addr,
                    data@[i].buf@.len() as usize,
                )) ==> final(self).faithful(),
    ;
}

/// Copies `n` bytes of `src` from `src_off` on into `dst` from `dst_off` on.
pub fn copy_bytes(dst: &mut Vec<u8>, dst_off: usize, src: &[u8], src_off: usize, n: usize)
    requires
        dst_off + n <= old(dst)@.len(),
        src_off + n <= src@.len(),
    ensures
        final(dst)@ == splice(
            old(dst)@,
            dst_off as int,
            src@.subrange(src_off as int, src_off + n),
        ),
{
    let dst_len: usize = dst.len();
    let src_len: usize = src.len();
    let mut k: usize = 0;
    while k < n
        invariant
            k <= n,
            dst_len == dst@.len(),
            src_len == src@.len(),
            dst_off + n <= dst_len,
            src_off + n <= src_len,
            dst@ == splice(old(dst)@, dst_off as int, src@.subrange(src_off as int, src_off + k)),
        decreases n - k,
    {
        dst[dst_off + k] = src[src_off + k];
        k += 1;
    }
}

/// What is written is read back: a read of as many bytes as were written,
/// at the address they were written to, from the memory that the write
/// left, returns the written bytes at every mapped address. This holds of
/// every backend while it is faithful, whatever a cache in it held before.
pub proof fn lemma_round_trip(mem: Memory, w: PhysicalWriteData, r: PhysicalReadData)
    requires
        r.addr.address == w.addr.address,
        r.buf@.len() == w.buf@.len(),
        reads_from(apply_writes(mem, seq![w]), r),
    ensures
        forall|j: int|
            0 <= j < w.buf@.len() && byte_mapped(mem, w.addr, j) ==> (#[trigger] r.buf@[j])
                == w.buf@[j],
        (forall|j: int| 0 <= j < w.buf@.len() ==> byte_mapped(mem, w.addr, j)) ==> r.buf@ == w.buf@,
{
    let after = apply_writes(mem, seq![w]);
    assert(seq![w].last() == w);
    assert forall|j: int| 0 <= j < w.buf@.len() && byte_mapped(mem, w.addr, j) implies (
    #[trigger] r.buf@[j]) == w.buf@[j] by {
        let x = (w.addr.as_int() + j) as u64;
        assert(byte_mapped(after, r.addr, j));
        assert(write_holds(w, x));
        assert(after[x] == byte_after_writes(mem, seq![w], x));
    }
    if forall|j: int| 0 <= j < w.buf@.len() ==> byte_mapped(mem, w.addr, j) {
        assert(r.buf@ =~= w.buf@);
    }
}

/// Two reads of the same addresses from the same memory return the same
/// bytes at every mapped address.
pub proof fn lemma_same_bytes(mem: Memory, a: PhysicalReadData, b: PhysicalReadData)
    requires
        a.addr.address == b.addr.address,
        a.buf@.len() == b.buf@.len(),
        reads_from(mem, a),
        reads_from(mem, b),
    ensures
        forall|j: int|
            0 <= j < a.buf@.len() && byte_mapped(mem, a.addr, j) ==> (#[trigger] a.buf@[j])
                == b.buf@[j],
        (forall|j: int| 0 <= j < a.buf@.len() ==> byte_mapped(mem, a.addr, j)) ==> a.buf@ == b.buf@,
{
    assert forall|j: int| 0 <= j < a.buf@.len() && byte_mapped(mem, a.addr, j) implies (
    #[trigger] a.buf@[j]) == b.buf@[j] by {
        assert(byte_mapped(mem, b.addr, j));
        assert(b.buf@[j] == mem[(b.addr.as_int() + j) as u64]);
    }
    if forall|j: int| 0 <= j < a.buf@.len() ==> byte_mapped(mem, a.addr, j) {
        assert(a.buf@ =~= b.buf@);
    }
}

} // verus!
