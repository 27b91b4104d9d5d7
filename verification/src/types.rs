//! Addresses, page types and physical addresses.

use vstd::prelude::*;

verus! {

/// The first address of the page of `page_size` bytes that holds `addr`.
pub open spec fn page_base(addr: int, page_size: int) -> int {
    addr - addr % page_size
}

/// Whether `n` is a power of two.
pub open spec fn is_power_of_two(n: usize) -> bool {
    n != 0 && n & ((n - 1) as usize) == 0
}

/// An address in the target's memory space.
#[derive(Clone, Copy, Debug, PartialEq, Eq, Structural)]
pub struct Address(pub u64);

impl Address {
    /// The address as a number.
    pub fn as_u64(self) -> (r: u64)
        ensures
            r == self.0,
    {
        self.0
    }

    /// The address truncated to the start of its page.
    pub fn as_page_aligned(self, page_size: usize) -> (r: Address)
        requires
            page_size > 0,
        ensures
            r.0 == page_base(self.0 as int, page_size as int),
            r.0 <= self.0,
            r.0 % (page_size as u64) == 0,
            self.0 - r.0 < page_size,
    {
        let ps: u64 = page_size as u64;
        let rem: u64 = self.0 % ps;
        assert(self.0 % ps <= self.0) by (nonlinear_arith)
            requires
                ps > 0,
        ;
        let r: u64 = self.0 - rem;
        proof {
            assert((self.0 - self.0 % ps) % (ps as int) == 0) by (nonlinear_arith)
                requires
                    ps > 0,
            ;
        }
        Address(r)
    }
}

/// A set of page properties. A page cache is told which of them make a
/// page eligible for caching.
#[derive(Clone, Copy, Debug, PartialEq, Eq, Structural)]
pub struct PageType {
    pub bits: u8,
}

impl PageType {
    /// No property at all.
    pub fn none() -> (r: PageType)
        ensures
            r.bits == 0,
    {
        PageType { bits: 0 }
    }

    /// A page whose kind is not known.
    pub fn unknown() -> (r: PageType)
        ensures
            r.bits == 1,
    {
        PageType { bits: 1 }
    }

    /// A page that holds a page table.
    pub fn page_table() -> (r: PageType)
        ensures
            r.bits == 2,
    {
        PageType { bits: 2 }
    }

    /// A page that the target may write.
    pub fn writeable() -> (r: PageType)
        ensures
            r.bits == 4,
    {
        PageType { bits: 4 }
    }

    /// A page that the target cannot write.
    pub fn read_only() -> (r: PageType)
        ensures
            r.bits == 8,
    {
        PageType { bits: 8 }
    }

    /// A page that the target cannot execute.
    pub fn noexec() -> (r: PageType)
        ensures
            r.bits == 16,
    {
        PageType { bits: 16 }
    }

    /// Whether every property of `other` is a property of `self`.
    pub open spec fn spec_contains(self, other: PageType) -> bool {
        self.bits & other.bits == other.bits
    }

    /// Whether every property of `other` is a property of `self`.
    pub fn contains(self, other: PageType) -> (r: bool)
        ensures
            r == self.spec_contains(other),
    {
        self.bits & other.bits == other.bits
    }

    /// The properties of `self` together with those of `other`.
    pub fn union(self, other: PageType) -> (r: PageType)
        ensures
            r.bits == self.bits | other.bits,
            r.spec_contains(self),
            r.spec_contains(other),
    {
        let a: u8 = self.bits;
        let b: u8 = other.bits;
        assert((a | b) & a == a && (a | b) & b == b) by (bit_vector);
        PageType { bits: a | b }
    }
}

/// An address in the target's physical memory, tagged with the type of
/// the page it lies in.
#[derive(Clone, Copy, Debug, PartialEq, Eq, Structural)]
pub struct PhysicalAddress {
    pub address: Address,
    pub page_type: PageType,
}

impl PhysicalAddress {
    /// The address as a mathematical integer.
    pub open spec fn as_int(self) -> int {
        self.address.0 as int
    }

    /// The physical address `address` in a page of type `page_type`.
    pub fn with_page(address: Address, page_type: PageType) -> (r: PhysicalAddress)
        ensures
            r.address == address,
            r.page_type == page_type,
    {
        PhysicalAddress { address, page_type }
    }

    /// The address without its page type.
    pub fn address(self) -> (r: Address)
        ensures
            r == self.address,
    {
        self.address
    }

    /// The type of the page that the address lies in.
    pub fn page_type(self) -> (r: PageType)
        ensures
            r == self.page_type,
    {
        self.page_type
    }
}

/// A page starts at a multiple of the page size, at or before each of its
/// addresses and less than a page before it.
pub proof fn lemma_page_base(x: int, page_size: int)
    requires
        page_size > 0,
        x >= 0,
    ensures
        0 <= page_base(x, page_size) <= x < page_base(x, page_size) + page_size,
        page_base(x, page_size) % page_size == 0,
{
    assert(0 <= x % page_size < page_size && x % page_size <= x) by (nonlinear_arith)
        requires
            page_size > 0,
            x >= 0,
    ;
    assert((x - x % page_size) % page_size == 0) by (nonlinear_arith)
        requires
            page_size > 0,
    ;
}

/// Every address from the start of a page up to the start of the next
/// lies in that page.
pub proof fn lemma_same_page(page: int, y: int, page_size: int)
    requires
        page_size > 0,
        page >= 0,
        page % page_size == 0,
        page <= y < page + page_size,
    ensures
        page_base(y, page_size) == page,
{
    let k = page / page_size;
    let d = y - page;
    vstd::arithmetic::div_mod::lemma_fundamental_div_mod(page, page_size);
    assert(page == page_size * k);
    vstd::arithmetic::div_mod::lemma_mod_multiples_vanish(k, d, page_size);
    vstd::arithmetic::div_mod::lemma_small_mod(d as nat, page_size as nat);
    assert(y == page_size * k + d);
}

/// The end of the part of `[x, hi)` that lies in the page of `x`.
pub open spec fn chunk_end(x: int, hi: int, page_size: int) -> int {
    if page_base(x, page_size) + page_size < hi {
        page_base(x, page_size) + page_size
    } else {
        hi
    }
}

/// The page of the address `x` and the number of bytes from `x` on that
/// lie both in that page and before `hi`.
pub fn page_chunk(x: u64, hi: u128, page_size: usize) -> (r: (Address, usize))
    requires
        page_size > 0,
        x < hi <= u64::MAX + 1,
    ensures
        r.0.0 == page_base(x as int, page_size as int),
        r.1 == chunk_end(x as int, hi as int, page_size as int) - x,
        r.1 > 0,
        r.0.0 <= x,
        r.0.0 % (page_size as u64) == 0,
        x - r.0.0 + r.1 <= page_size,
{
    let page = Address(x).as_page_aligned(page_size);
    let offset: usize = (x - page.0) as usize;
    let room: usize = page_size - offset;
    let left: u128 = hi - x as u128;
    let n: usize = if (room as u128) < left {
        room
    } else {
        left as usize
    };
    (page, n)
}

} // verus!
