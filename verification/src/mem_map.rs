//! An ordered set of mapped address ranges that do not overlap.

use vstd::prelude::*;
use std::sync::Arc;
use crate::phys_mem::{copy_bytes, patched, splice, Memory};
use crate::types::Address;

verus! {

/// A number of bytes, in contracts.
pub type Length = nat;

/// A sequence of bytes, in contracts.
pub type Bytes = Seq<u8>;

/// A value that stands behind a mapped range and says how long the range is.
pub trait MappedLen {
    /// The number of bytes of the range.
    spec fn spec_len(&self) -> nat;

    /// The number of bytes of the range.
    fn len(&self) -> (n: usize)
        ensures
            n == self.spec_len(),
    ;
}

/// A range of a backing store, given by its first byte and its length.
impl MappedLen for (Address, usize) {
    open spec fn spec_len(&self) -> nat {
        self.1 as nat
    }

    fn len(&self) -> (n: usize) {
        self.1
    }
}

/// One mapped range: the bytes from `base` on are backed by `output`.
pub struct Mapping<T> {
    pub base: Address,
    pub output: T,
}

/// The part of a request that one mapping backs.
#[derive(Clone, Copy, Debug, PartialEq, Eq, Structural)]
pub struct Segment {
    /// The index of the mapping.
    pub index: usize,
    /// Where the part starts within the mapping.
    pub offset: usize,
    /// Where the part starts within the request.
    pub start: usize,
    /// The number of bytes of the part.
    pub len: usize,
}

/// Whether the gap `g` holds the address `x`.
pub open spec fn gap_holds(g: (Address, usize), x: int) -> bool {
    g.0.0 <= x < g.0.0 + g.1
}

/// Whether the segment `sg` of a request at `addr` holds the address `x`.
pub open spec fn segment_holds(sg: Segment, addr: int, x: int) -> bool {
    addr + sg.start <= x < addr + sg.start + sg.len
}

/// Mapped ranges in ascending order, no two of which overlap.
pub struct MemoryMap<T> {
    mappings: Vec<Mapping<T>>,
}

impl<T: MappedLen> MemoryMap<T> {
    /// The mappings in ascending order.
    pub closed spec fn entries(&self) -> Seq<Mapping<T>> {
        self.mappings@
    }

    /// The first address of mapping `i`.
    pub open spec fn base(&self, i: int) -> int {
        self.entries()[i].base.0 as int
    }

    /// The address after the last one of mapping `i`.
    pub open spec fn end(&self, i: int) -> int {
        self.entries()[i].base.0 + self.entries()[i].output.spec_len()
    }

    /// Every mapping lies in the address space, and each ends before the
    /// next one begins.
    pub open spec fn wf(&self) -> bool {
        &&& forall|i: int| 0 <= i < self.entries().len() ==> (#[trigger] self.end(i)) <= u64::MAX + 1
        &&& forall|i: int, j: int|
            0 <= i < j < self.entries().len() ==> (#[trigger] self.end(i)) <= (#[trigger] self.base(j))
    }

    /// Whether `other` has as many mappings as this map, each with the
    /// first address and the length of the mapping at its place here.
    pub open spec fn same_layout(&self, other: Self) -> bool {
        &&& self.entries().len() == other.entries().len()
        &&& forall|i: int|
            0 <= i < self.entries().len() ==> (#[trigger] self.base(i)) == other.base(i)
        &&& forall|i: int| 0 <= i < self.entries().len() ==> (#[trigger] self.end(i)) == other.end(i)
    }

    /// Whether mapping `i` holds the address `x`.
    pub open spec fn covers(&self, i: int, x: int) -> bool {
        0 <= i < self.entries().len() && self.base(i) <= x < self.end(i)
    }

    /// Whether some mapping holds the address `x`.
    pub open spec fn mapped(&self, x: int) -> bool {
        exists|i: int| self.covers(i, x)
    }

    /// The mapping that holds the address `x`, where one does.
    pub open spec fn index_of(&self, x: int) -> int {
        choose|i: int| self.covers(i, x)
    }

    /// Whether a range of `len` bytes at `base` lies in the address space
    /// and overlaps no mapping.
    pub open spec fn fits(&self, base: int, len: int) -> bool {
        &&& base + len <= u64::MAX + 1
        &&& forall|i: int|
            0 <= i < self.entries().len() ==> (#[trigger] self.end(i)) <= base || base + len
                <= self.base(i)
    }

    /// Whether `sg` is a part of the request of `len` bytes at `addr` that
    /// lies in the mapping it names, at the place it names.
    pub open spec fn segment_ok(&self, addr: int, len: int, sg: Segment) -> bool {
        &&& sg.index < self.entries().len()
        &&& sg.len > 0
        &&& sg.start + sg.len <= len
        &&& sg.offset + sg.len <= self.entries()[sg.index as int].output.spec_len()
        &&& self.base(sg.index as int) + sg.offset == addr + sg.start
    }

    /// Whether `g` is a run of addresses of the request of `len` bytes at
    /// `addr` that no mapping holds.
    pub open spec fn gap_ok(&self, addr: int, len: int, g: (Address, usize)) -> bool {
        &&& g.1 > 0
        &&& addr <= g.0.0
        &&& g.0.0 + g.1 <= addr + len
        &&& forall|x: int| gap_holds(g, x) ==> !self.mapped(x)
    }

    /// Whether `segs` holds, in ascending order, one segment for each
    /// mapping that backs a part of the request of `len` bytes at `addr`,
    /// and leaves out no mapped address of the request.
    pub open spec fn splits(&self, addr: int, len: int, segs: Seq<Segment>) -> bool {
        &&& forall|k: int| 0 <= k < segs.len() ==> self.segment_ok(addr, len, (#[trigger] segs[k]))
        &&& forall|k: int, l: int|
            0 <= k < l < segs.len() ==> (#[trigger] segs[k]).index < (#[trigger] segs[l]).index
        &&& forall|x: int|
            addr <= x < addr + len && (#[trigger] self.mapped(x)) ==> exists|k: int|
                0 <= k < segs.len() && (#[trigger] segment_holds(segs[k], addr, x))
    }

    /// Whether `after` is `before` followed, in ascending order and with
    /// a mapped address between any two, by the runs of addresses of the
    /// request of `len` bytes at `addr` that no mapping holds, leaving out
    /// no such address.
    pub open spec fn reports_gaps(
        &self,
        addr: int,
        len: int,
        before: Seq<(Address, usize)>,
        after: Seq<(Address, usize)>,
    ) -> bool {
        &&& before.len() <= after.len()
        &&& after.subrange(0, before.len() as int) == before
        &&& forall|k: int|
            before.len() <= k < after.len() ==> self.gap_ok(addr, len, (#[trigger] after[k]))
        &&& forall|k: int, l: int|
            before.len() <= k < l < after.len() ==> (#[trigger] after[k]).0.0 + after[k].1 < (
            #[trigger] after[l]).0.0
        &&& forall|x: int|
            addr <= x < addr + len && x <= u64::MAX && !(#[trigger] self.mapped(x)) ==> exists|
                k: int,
            | before.len() <= k < after.len() && (#[trigger] gap_holds(after[k], x))
    }

    /// At most one mapping holds an address.
    pub proof fn lemma_covers_unique(&self, i: int, j: int, x: int)
        requires
            self.wf(),
            self.covers(i, x),
            self.covers(j, x),
        ensures
            i == j,
    {
        if i < j {
            assert(self.end(i) <= self.base(j));
        } else if j < i {
            assert(self.end(j) <= self.base(i));
        }
    }

    /// The mapping that holds an address is the one that `index_of` names.
    pub proof fn lemma_index_of(&self, i: int, x: int)
        requires
            self.wf(),
            self.covers(i, x),
        ensures
            self.mapped(x),
            self.index_of(x) == i,
    {
        self.lemma_covers_unique(i, self.index_of(x), x);
    }

    /// A map without mappings.
    pub fn new() -> (r: Self)
        ensures
            r.entries().len() == 0,
            r.wf(),
    {
        MemoryMap { mappings: Vec::new() }
    }

    /// The number of mappings.
    pub fn len(&self) -> (n: usize)
        ensures
            n == self.entries().len(),
    {
        self.mappings.len()
    }

    /// Mapping `i`.
    pub fn get(&self, i: usize) -> (m: &Mapping<T>)
        requires
            i < self.entries().len(),
        ensures
            *m == self.entries()[i as int],
    {
        &self.mappings[i]
    }

    /// Whether the map is well-formed. Every map that was made by the
    /// functions of this type is.
    pub fn is_ordered(&self) -> (ok: bool)
        ensures
            ok == self.wf(),
    {
        let n: usize = self.mappings.len();
        let mut i: usize = 0;
        let mut last_end: u128 = 0;
        let ghost mut top: int = 0;
        while i < n
            invariant
                n == self.entries().len(),
                i <= n,
                last_end <= u64::MAX + 1,
                i == 0 ==> last_end == 0,
                i > 0 ==> 0 <= top < i && self.end(top) == last_end,
                forall|k: int| 0 <= k < i ==> (#[trigger] self.end(k)) <= last_end,
                forall|k: int| 0 <= k < i ==> (#[trigger] self.end(k)) <= u64::MAX + 1,
                forall|k: int, l: int|
                    0 <= k < l < i ==> (#[trigger] self.end(k)) <= (#[trigger] self.base(l)),
            decreases n - i,
        {
            let base: u128 = self.mappings[i].base.0 as u128;
            let end: u128 = base + self.mappings[i].output.len() as u128;
            if base < last_end || end > u64::MAX as u128 + 1 {
                proof {
                    if base < last_end {
                        assert(self.end(top) > self.base(i as int));
                    } else {
                        assert(self.end(i as int) > u64::MAX + 1);
                    }
                }
                return false;
            }
            proof {
                top = i as int;
            }
            last_end = end;
            i += 1;
        }
        true
    }

    /// Adds the range that starts at `base` and is as long as `output`,
    /// at its place in the order. A range that reaches beyond the address
    /// space or overlaps a mapping is not added, and the map stays as it is.
    pub fn push(&mut self, base: Address, output: T) -> (ok: bool)
        requires
            old(self).wf(),
        ensures
            final(self).wf(),
            ok == old(self).fits(base.0 as int, output.spec_len() as int),
            !ok ==> final(self).entries() == old(self).entries(),
            ok ==> exists|k: int|
                {
                    &&& 0 <= k <= old(self).entries().len()
                    &&& (#[trigger] final(self).entries()) == old(self).entries().insert(
                        k,
                        Mapping { base, output },
                    )
                    &&& forall|i: int| 0 <= i < k ==> (#[trigger] old(self).end(i)) <= base.0
                    &&& forall|i: int|
                        k <= i < old(self).entries().len() ==> base.0 < (#[trigger] old(self).end(i))
                },
    {
        let n: usize = self.mappings.len();
        let len: usize = output.len();
        let end: u128 = base.0 as u128 + len as u128;
        if end > u64::MAX as u128 + 1 {
            return false;
        }
        let mut k: usize = 0;
        while k < n && self.mappings[k].base.0 as u128 + self.mappings[k].output.len() as u128
            <= base.0 as u128
            invariant
                n == self.entries().len(),
                k <= n,
                *self == *old(self),
                forall|i: int| 0 <= i < k ==> (#[trigger] self.end(i)) <= base.0,
            decreases n - k,
        {
            k += 1;
        }
        if k < n && end > self.mappings[k].base.0 as u128 {
            assert(!(self.end(k as int) <= base.0 || base.0 + len <= self.base(k as int)));
            return false;
        }
        proof {
            assert forall|i: int| 0 <= i < n implies (#[trigger] self.end(i)) <= base.0 || base.0
                + len <= self.base(i) by {
                if i > k {
                    assert(self.end(k as int) <= self.base(i));
                }
            }
        }
        let ghost before = self.entries();
        let ghost m = Mapping { base, output };
        self.mappings.insert(k, Mapping { base, output });
        proof {
            let after = self.entries();
            assert(after == before.insert(k as int, m));
            assert forall|i: int| 0 <= i < after.len() implies (#[trigger] self.end(i)) <= u64::MAX
                + 1 by {
                if i < k {
                    assert(after[i] == before[i]);
                    assert(old(self).end(i) <= u64::MAX + 1);
                } else if i > k {
                    assert(after[i] == before[i - 1]);
                    assert(old(self).end(i - 1) <= u64::MAX + 1);
                }
            }
            assert forall|i: int, j: int| 0 <= i < j < after.len() implies (#[trigger] self.end(i))
                <= (#[trigger] self.base(j)) by {
                let oi = if i < k { i } else { i - 1 };
                let oj = if j < k { j } else { j - 1 };
                if i != k {
                    assert(after[i] == before[oi]);
                }
                if j != k {
                    assert(after[j] == before[oj]);
                }
                if i != k && j != k {
                    assert(old(self).end(oi) <= old(self).base(oj));
                } else if i == k {
                    assert(old(self).end(oj) <= base.0 || base.0 + len <= old(self).base(oj));
                    if oj > k {
                        assert(old(self).end(k as int) <= old(self).base(oj));
                    }
                } else {
                    assert(old(self).end(oi) <= base.0);
                }
            }
            assert forall|i: int| k <= i < before.len() implies base.0 < (#[trigger] old(self).end(
                i,
            )) by {
                if i > k {
                    assert(old(self).end(k as int) <= old(self).base(i));
                }
            }
        }
        true
    }

    /// Adds a range that starts at or after the end of every mapping.
    pub(crate) fn append(&mut self, base: Address, output: T)
        requires
            old(self).wf(),
            base.0 + output.spec_len() <= u64::MAX + 1,
            forall|i: int| 0 <= i < old(self).entries().len() ==> (#[trigger] old(self).end(i)) <= base.0,
        ensures
            final(self).wf(),
            final(self).entries() == old(self).entries().push(Mapping { base, output }),
    {
        let ghost before = self.entries();
        self.mappings.push(Mapping { base, output });
        proof {
            let after = self.entries();
            assert forall|i: int| 0 <= i < after.len() implies (#[trigger] self.end(i)) <= u64::MAX
                + 1 by {
                if i < before.len() {
                    assert(after[i] == before[i]);
                    assert(old(self).end(i) <= u64::MAX + 1);
                }
            }
            assert forall|i: int, j: int| 0 <= i < j < after.len() implies (#[trigger] self.end(i))
                <= (#[trigger] self.base(j)) by {
                assert(after[i] == before[i]);
                if j < before.len() {
                    assert(after[j] == before[j]);
                    assert(old(self).end(i) <= old(self).base(j));
                } else {
                    assert(old(self).end(i) <= base.0);
                }
            }
        }
    }

    /// Splits the request of `len` bytes at `addr` along the mappings. The
    /// result holds, in ascending order, one segment for each mapping that
    /// backs a part of the request. Each run of addresses of the request
    /// that no mapping holds is appended to `gaps`, in ascending order.
    /// Bytes of the request beyond the end of the address space belong to
    /// neither.
    pub fn map_range(&self, addr: Address, len: usize, gaps: &mut Vec<(Address, usize)>) -> (segs:
        Vec<Segment>)
        requires
            self.wf(),
        ensures
            self.splits(addr.0 as int, len as int, segs@),
            self.reports_gaps(addr.0 as int, len as int, old(gaps)@, final(gaps)@),
    {
        let n: usize = self.mappings.len();
        let lo: u128 = addr.0 as u128;
        let full: u128 = lo + len as u128;
        let hi: u128 = if full > u64::MAX as u128 + 1 {
            u64::MAX as u128 + 1
        } else {
            full
        };
        let ghost g0: int = gaps@.len() as int;
        let mut segs: Vec<Segment> = Vec::new();
        let mut cur: u128 = lo;
        let mut i: usize = 0;
        while i < n
            invariant
                self.wf(),
                n == self.entries().len(),
                i <= n,
                lo == addr.0,
                lo <= cur <= hi,
                hi <= lo + len,
                hi <= u64::MAX + 1,
                hi == lo + len || hi == u64::MAX + 1,
                g0 == old(gaps)@.len(),
                g0 <= gaps@.len(),
                gaps@.subrange(0, g0) == old(gaps)@,
                forall|j: int| i <= j < n ==> cur <= lo || cur <= (#[trigger] self.base(j)),
                forall|k: int, x: int| 0 <= k < i && cur <= x < hi ==> !(#[trigger] self.covers(k, x)),
                forall|k: int|
                    0 <= k < segs.len() ==> self.segment_ok(lo as int, len as int, (#[trigger] segs[k])),
                forall|k: int| 0 <= k < segs.len() ==> (#[trigger] segs[k]).index < i,
                forall|k: int, l: int|
                    0 <= k < l < segs.len() ==> (#[trigger] segs[k]).index < (
                    #[trigger] segs[l]).index,
                forall|k: int, x: int|
                    0 <= k < i && lo <= x < hi && (#[trigger] self.covers(k, x)) ==> exists|s: int|
                        0 <= s < segs.len() && (#[trigger] segment_holds(segs[s], lo as int, x)),
                forall|k: int|
                    g0 <= k < gaps@.len() ==> self.gap_ok(lo as int, len as int, (#[trigger] gaps@[k])),
                forall|k: int|
                    g0 <= k < gaps@.len() ==> (#[trigger] gaps@[k]).0.0 + gaps@[k].1 < cur,
                forall|k: int, l: int|
                    g0 <= k < l < gaps@.len() ==> (#[trigger] gaps@[k]).0.0 + gaps@[k].1 < (
                    #[trigger] gaps@[l]).0.0,
                forall|x: int|
                    lo <= x < cur && !(#[trigger] self.mapped(x)) ==> exists|k: int|
                        g0 <= k < gaps@.len() && (#[trigger] gap_holds(gaps@[k], x)),
            decreases n - i,
        {
            let b: u128 = self.mappings[i].base.0 as u128;
            let e: u128 = b + self.mappings[i].output.len() as u128;
            assert(b == self.base(i as int) && e == self.end(i as int));
            let s: u128 = if b > lo {
                b
            } else {
                lo
            };
            let t: u128 = if e < hi {
                e
            } else {
                hi
            };
            if s < t {
                assert(cur <= s);
                let ghost old_cur = cur;
                let ghost old_gaps = gaps@;
                let ghost old_segs = segs@;
                if cur < s {
                    let g: (Address, usize) = (Address(cur as u64), (s - cur) as usize);
                    proof {
                        assert forall|x: int| gap_holds(g, x) implies !self.mapped(x) by {
                            assert forall|k: int| !self.covers(k, x) by {
                                if 0 <= k < i {
                                } else if k > i && k < n {
                                    assert(self.end(i as int) <= self.base(k));
                                }
                            }
                        }
                        assert(self.gap_ok(lo as int, len as int, g));
                    }
                    gaps.push(g);
                    proof {
                        assert(gaps@.subrange(0, g0) =~= old_gaps.subrange(0, g0));
                    }
                }
                let sg = Segment {
                    index: i,
                    offset: (s - b) as usize,
                    start: (s - lo) as usize,
                    len: (t - s) as usize,
                };
                segs.push(sg);
                cur = t;
                proof {
                    assert(self.segment_ok(lo as int, len as int, sg));
                    assert forall|k: int, x: int|
                        0 <= k < i + 1 && lo <= x < hi && (#[trigger] self.covers(k, x)) implies exists|
                        q: int,
                    | 0 <= q < segs.len() && (#[trigger] segment_holds(segs[q], lo as int, x)) by {
                        if k < i {
                            let q = choose|q: int|
                                0 <= q < old_segs.len() && (#[trigger] segment_holds(
                                    old_segs[q],
                                    lo as int,
                                    x,
                                ));
                            assert(segs[q] == old_segs[q]);
                            assert(segment_holds(segs[q], lo as int, x));
                        } else {
                            let q = segs.len() - 1;
                            assert(segment_holds(segs[q], lo as int, x));
                        }
                    }
                    assert forall|x: int| lo <= x < cur && !(#[trigger] self.mapped(x)) implies exists|
                        k: int,
                    | g0 <= k < gaps@.len() && (#[trigger] gap_holds(gaps@[k], x)) by {
                        if x < old_cur {
                            let k = choose|k: int|
                                g0 <= k < old_gaps.len() && (#[trigger] gap_holds(old_gaps[k], x));
                            assert(gaps@[k] == old_gaps[k]);
                            assert(gap_holds(gaps@[k], x));
                        } else if x < s {
                            let k = gaps@.len() - 1;
                            assert(gap_holds(gaps@[k], x));
                        } else {
                            assert(self.covers(i as int, x));
                        }
                    }
                    assert forall|j: int| i + 1 <= j < n implies cur <= lo || cur
                        <= (#[trigger] self.base(j)) by {
                        assert(self.end(i as int) <= self.base(j));
                    }
                }
            }
            i += 1;
        }
        if cur < hi {
            let g: (Address, usize) = (Address(cur as u64), (hi - cur) as usize);
            let ghost old_gaps = gaps@;
            proof {
                assert forall|x: int| gap_holds(g, x) implies !self.mapped(x) by {
                    assert forall|k: int| !self.covers(k, x) by {}
                }
                assert(self.gap_ok(lo as int, len as int, g));
            }
            gaps.push(g);
            proof {
                assert(gaps@.subrange(0, g0) =~= old_gaps.subrange(0, g0));
                assert forall|x: int|
                    addr.0 <= x < addr.0 + len && x <= u64::MAX && !(#[trigger] self.mapped(
                        x,
                    )) implies exists|k: int|
                    g0 <= k < gaps@.len() && (#[trigger] gap_holds(gaps@[k], x)) by {
                    if x < cur {
                        let k = choose|k: int|
                            g0 <= k < old_gaps.len() && (#[trigger] gap_holds(old_gaps[k], x));
                        assert(gaps@[k] == old_gaps[k]);
                        assert(gap_holds(gaps@[k], x));
                    } else {
                        let k = gaps@.len() - 1;
                        assert(gap_holds(gaps@[k], x));
                    }
                }
            }
        }
        proof {
            assert forall|x: int|
                addr.0 <= x < addr.0 + len && (#[trigger] self.mapped(x)) implies exists|k: int|
                0 <= k < segs.len() && (#[trigger] segment_holds(segs[k], addr.0 as int, x)) by {
                let k = self.index_of(x);
                assert(self.covers(k, x));
                assert(self.end(k) <= u64::MAX + 1);
            }
        }
        segs
    }
}

/// The bytes `src[off..off + n]` in a vector of their own.
pub fn to_vec(src: &[u8], off: usize, n: usize) -> (r: Vec<u8>)
    requires
        off + n <= src@.len(),
    ensures
        r@ == src@.subrange(off as int, off + n),
{
    let src_len: usize = src.len();
    let mut r: Vec<u8> = Vec::new();
    let mut k: usize = 0;
    while k < n
        invariant
            k <= n,
            src_len == src@.len(),
            off + n <= src_len,
            r@ == src@.subrange(off as int, off + k),
        decreases n - k,
    {
        r.push(src[off + k]);
        k += 1;
    }
    r
}

/// Bytes that stand behind a mapped range.
pub trait MappedBuf: MappedLen + Sized {
    /// The bytes.
    spec fn bytes(&self) -> Seq<u8>;

    /// Whether bytes of this kind can be written.
    spec fn writable() -> bool;

    /// The range is as long as its bytes.
    proof fn lemma_len(&self)
        ensures
            self.bytes().len() == self.spec_len(),
    ;

    /// Whether bytes of this kind can be written.
    fn is_writable() -> (b: bool)
        ensures
            b == Self::writable(),
    ;

    /// The range that holds `bytes`.
    fn from_bytes(bytes: Vec<u8>) -> (r: Self)
        ensures
            r.bytes() == bytes@,
    ;

    /// A second handle on the same bytes, or a copy of them.
    fn duplicate(&self) -> (r: Self)
        ensures
            r.bytes() == self.bytes(),
    ;

    /// Copies `n` bytes from `offset` on into `dst` from `dst_off` on.
    fn load(&self, offset: usize, dst: &mut Vec<u8>, dst_off: usize, n: usize)
        requires
            offset + n <= self.bytes().len(),
            dst_off + n <= old(dst)@.len(),
        ensures
            final(dst)@ == splice(
                old(dst)@,
                dst_off as int,
                self.bytes().subrange(offset as int, offset + n),
            ),
    ;

    /// Copies `n` bytes of `src` from `src_off` on over the bytes from
    /// `offset` on, where bytes of this kind can be written; else nothing
    /// changes. The result says which.
    fn store(&mut self, offset: usize, src: &[u8], src_off: usize, n: usize) -> (ok: bool)
        requires
            offset + n <= old(self).bytes().len(),
            src_off + n <= src@.len(),
        ensures
            ok == Self::writable(),
            final(self).spec_len() == old(self).spec_len(),
            ok ==> final(self).bytes() == splice(
                old(self).bytes(),
                offset as int,
                src@.subrange(src_off as int, src_off + n),
            ),
            !ok ==> final(self).bytes() == old(self).bytes(),
    ;
}

impl MappedLen for Vec<u8> {
    open spec fn spec_len(&self) -> nat {
        self@.len()
    }

    fn len(&self) -> (n: usize) {
        Vec::len(self)
    }
}

/// Bytes that the connector owns and can write.
impl MappedBuf for Vec<u8> {
    open spec fn bytes(&self) -> Seq<u8> {
        self@
    }

    open spec fn writable() -> bool {
        true
    }

    proof fn lemma_len(&self) {
    }

    fn is_writable() -> (b: bool) {
        true
    }

    fn from_bytes(bytes: Vec<u8>) -> (r: Self) {
        bytes
    }

    fn duplicate(&self) -> (r: Self) {
        let r = to_vec(self.as_slice(), 0, Vec::len(self));
        assert(self@.subrange(0, self@.len() as int) == self@);
        r
    }

    fn load(&self, offset: usize, dst: &mut Vec<u8>, dst_off: usize, n: usize) {
        copy_bytes(dst, dst_off, self.as_slice(), offset, n);
    }

    fn store(&mut self, offset: usize, src: &[u8], src_off: usize, n: usize) -> (ok: bool) {
        copy_bytes(self, offset, src, src_off, n);
        true
    }
}

impl MappedLen for Arc<Vec<u8>> {
    open spec fn spec_len(&self) -> nat {
        (**self)@.len()
    }

    fn len(&self) -> (n: usize) {
        let v: &Vec<u8> = &**self;
        v.len()
    }
}

/// Hands out a second handle on the bytes behind `a`, as `Arc::clone`
/// does: both handles then point to the same value.
#[verifier::external_body]
fn share(a: &Arc<Vec<u8>>) -> (r: Arc<Vec<u8>>)
    ensures
        r == *a,
{
    Arc::clone(a)
}

/// Bytes that several connectors share and none can write.
impl MappedBuf for Arc<Vec<u8>> {
    open spec fn bytes(&self) -> Seq<u8> {
        (**self)@
    }

    open spec fn writable() -> bool {
        false
    }

    proof fn lemma_len(&self) {
    }

    fn is_writable() -> (b: bool) {
        false
    }

    fn from_bytes(bytes: Vec<u8>) -> (r: Self) {
        Arc::new(bytes)
    }

    fn duplicate(&self) -> (r: Self) {
        share(self)
    }

    fn load(&self, offset: usize, dst: &mut Vec<u8>, dst_off: usize, n: usize) {
        let v: &Vec<u8> = &**self;
        copy_bytes(dst, dst_off, v.as_slice(), offset, n);
    }

    fn store(&mut self, offset: usize, src: &[u8], src_off: usize, n: usize) -> (ok: bool) {
        false
    }
}

impl<T: MappedBuf> MemoryMap<T> {
    /// The byte at the mapped address `x`.
    pub open spec fn byte_at(&self, x: int) -> u8 {
        let i = self.index_of(x);
        self.entries()[i].output.bytes()[x - self.base(i)]
    }

    /// The mapped addresses, and the byte at each.
    pub open spec fn memory(&self) -> Memory {
        Map::new(|x: u64| self.mapped(x as int), |x: u64| self.byte_at(x as int))
    }

    /// The first address and the bytes of each mapping.
    pub open spec fn contents(&self) -> Seq<(Address, Seq<u8>)> {
        Seq::new(
            self.entries().len(),
            |i: int| (self.entries()[i].base, self.entries()[i].output.bytes()),
        )
    }

    /// Whether `sg` lies within the mapping it names.
    pub open spec fn in_mapping(&self, sg: Segment) -> bool {
        &&& sg.index < self.entries().len()
        &&& sg.offset + sg.len <= self.entries()[sg.index as int].output.bytes().len()
    }

    /// Two maps with the same contents are the same memory.
    pub proof fn lemma_same_contents(&self, other: &Self)
        requires
            self.wf(),
            self.contents() == other.contents(),
        ensures
            other.wf(),
            self.memory() == other.memory(),
    {
        assert(self.entries().len() == self.contents().len());
        assert(other.entries().len() == other.contents().len());
        assert forall|i: int| 0 <= i < self.entries().len() implies self.base(i) == other.base(i)
            && self.end(i) == other.end(i) by {
            assert(self.contents()[i] == other.contents()[i]);
            self.entries()[i].output.lemma_len();
            other.entries()[i].output.lemma_len();
        }
        assert forall|i: int, j: int| 0 <= i < j < other.entries().len() implies (#[trigger] other.end(
            i,
        )) <= (#[trigger] other.base(j)) by {
            assert(self.end(i) <= self.base(j));
        }
        assert forall|i: int| 0 <= i < other.entries().len() implies (#[trigger] other.end(i))
            <= u64::MAX + 1 by {
            assert(self.end(i) <= u64::MAX + 1);
        }
        assert forall|x: int| self.mapped(x) == other.mapped(x) by {
            if self.mapped(x) {
                assert(other.covers(self.index_of(x), x));
            }
            if other.mapped(x) {
                assert(self.covers(other.index_of(x), x));
            }
        }
        assert forall|x: int| self.mapped(x) implies self.byte_at(x) == other.byte_at(x) by {
            let i = self.index_of(x);
            assert(self.covers(i, x));
            assert(other.covers(i, x));
            other.lemma_index_of(i, x);
            assert(self.contents()[i] == other.contents()[i]);
        }
        assert(self.memory() =~= other.memory());
    }

    /// The address of the first byte of the segment `sg`.
    pub open spec fn segment_addr(&self, sg: Segment) -> int {
        self.base(sg.index as int) + sg.offset
    }

    /// Copies the bytes of the segment `sg` from its mapping into `dst`,
    /// to the place of the segment in the request.
    pub fn load(&self, sg: Segment, dst: &mut Vec<u8>)
        requires
            self.wf(),
            self.in_mapping(sg),
            sg.start + sg.len <= old(dst)@.len(),
        ensures
            final(dst)@.len() == old(dst)@.len(),
            forall|j: int|
                0 <= j < old(dst)@.len() && !(sg.start <= j < sg.start + sg.len) ==> final(dst)@[j]
                    == old(dst)@[j],
            forall|x: int|
                self.segment_addr(sg) <= x < self.segment_addr(sg) + sg.len ==> (#[trigger] self.mapped(
                    x,
                )),
            forall|j: int|
                sg.start <= j < sg.start + sg.len ==> (#[trigger] final(dst)@[j]) == self.byte_at(
                    self.segment_addr(sg) - sg.start + j,
                ),
    {
        self.mappings[sg.index].output.load(sg.offset, dst, sg.start, sg.len);
        proof {
            let i = sg.index as int;
            self.entries()[i].output.lemma_len();
            assert forall|x: int|
                self.segment_addr(sg) <= x < self.segment_addr(sg) + sg.len implies (#[trigger] self.mapped(
                x,
            )) by {
                assert(self.covers(i, x));
            }
            assert forall|j: int| sg.start <= j < sg.start + sg.len implies (#[trigger] dst@[j])
                == self.byte_at(self.segment_addr(sg) - sg.start + j) by {
                let x = self.segment_addr(sg) - sg.start + j;
                assert(self.covers(i, x));
                self.lemma_index_of(i, x);
            }
        }
    }

    /// Copies the bytes of the segment `sg` from their place in the
    /// request `src` over the bytes of its mapping, where these can be
    /// written; else nothing changes. The result says which.
    pub fn store(&mut self, sg: Segment, src: &[u8]) -> (ok: bool)
        requires
            old(self).wf(),
            old(self).in_mapping(sg),
            sg.start + sg.len <= src@.len(),
        ensures
            ok == T::writable(),
            final(self).wf(),
            final(self).entries().len() == old(self).entries().len(),
            forall|i: int|
                0 <= i < old(self).entries().len() ==> (#[trigger] final(self).base(i)) == old(self).base(i),
            forall|i: int|
                0 <= i < old(self).entries().len() ==> (#[trigger] final(self).end(i)) == old(self).end(i),
            ok ==> final(self).memory() == patched(
                old(self).memory(),
                old(self).segment_addr(sg),
                src@.subrange(sg.start as int, sg.start + sg.len),
            ),
            !ok ==> final(self).contents() == old(self).contents(),
            !ok ==> final(self).memory() == old(self).memory(),
    {
        let ok = self.mappings[sg.index].output.store(sg.offset, src, sg.start, sg.len);
        proof {
            let idx = sg.index as int;
            let sub = src@.subrange(sg.start as int, sg.start + sg.len);
            assert forall|i: int| 0 <= i < old(self).entries().len() implies self.base(i) == old(self).base(i) && self.end(i) == old(self).end(i) by {
                if i != idx {
                    assert(self.entries()[i] == old(self).entries()[i]);
                }
            }
            assert forall|i: int, j: int| 0 <= i < j < self.entries().len() implies (#[trigger] self.end(
                i,
            )) <= (#[trigger] self.base(j)) by {
                assert(old(self).end(i) <= old(self).base(j));
            }
            assert forall|i: int| 0 <= i < self.entries().len() implies (#[trigger] self.end(i))
                <= u64::MAX + 1 by {
                assert(old(self).end(i) <= u64::MAX + 1);
            }
            if !ok {
                assert(self.contents() =~= old(self).contents());
                old(self).lemma_same_contents(self);
            } else {
                let a = old(self).segment_addr(sg);
                let want = patched(old(self).memory(), a, sub);
                old(self).entries()[idx].output.lemma_len();
                assert forall|x: u64| self.memory().dom().contains(x) == want.dom().contains(
                    x,
                ) by {
                    if old(self).mapped(x as int) {
                        assert(self.covers(old(self).index_of(x as int), x as int));
                    }
                    if self.mapped(x as int) {
                        assert(old(self).covers(self.index_of(x as int), x as int));
                    }
                }
                assert forall|x: u64| self.memory().dom().contains(x) implies self.memory()[x]
                    == want[x] by {
                    let i = self.index_of(x as int);
                    assert(self.covers(i, x as int));
                    assert(old(self).covers(i, x as int));
                    old(self).lemma_index_of(i, x as int);
                    if i != idx {
                        assert(self.entries()[i] == old(self).entries()[i]);
                    }
                    if a <= x < a + sg.len {
                        assert(old(self).covers(idx, x as int));
                        old(self).lemma_covers_unique(i, idx, x as int);
                    }
                }
                assert(self.memory() =~= want);
            }
        }
        ok
    }

    /// A map with the same contents, which shares the bytes of `self`
    /// where they are shared bytes and holds a copy of them where not.
    pub fn duplicate(&self) -> (r: Self)
        ensures
            r.contents() == self.contents(),
    {
        let n: usize = self.mappings.len();
        let mut r: MemoryMap<T> = MemoryMap { mappings: Vec::new() };
        let mut i: usize = 0;
        while i < n
            invariant
                n == self.entries().len(),
                i <= n,
                r.entries().len() == i,
                forall|k: int|
                    0 <= k < i ==> (#[trigger] r.entries()[k]).base == self.entries()[k].base
                        && r.entries()[k].output.bytes() == self.entries()[k].output.bytes(),
            decreases n - i,
        {
            let m = &self.mappings[i];
            r.mappings.push(Mapping { base: m.base, output: m.output.duplicate() });
            i += 1;
        }
        assert(r.contents() =~= self.contents());
        r
    }
}

} // verus!
