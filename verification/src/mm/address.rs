//! Physical and virtual addresses and page numbers, kept apart as types of
//! their own.

use vstd::prelude::*;

verus! {

/// One more than the largest physical address (56 bits).
pub const PA_LIMIT: u64 = 0x100_0000_0000_0000;

/// One more than the largest virtual address (39 bits).
pub const VA_LIMIT: u64 = 0x80_0000_0000;

/// One more than the largest physical page number (44 bits).
pub const PPN_LIMIT: u64 = 0x1000_0000_0000;

/// One more than the largest virtual page number (27 bits).
pub const VPN_LIMIT: u64 = 0x800_0000;

/// A physical address.
#[derive(Clone, Copy, Debug, PartialEq, Eq, Structural)]
pub struct PhysAddr(pub u64);

/// A virtual address.
#[derive(Clone, Copy, Debug, PartialEq, Eq, Structural)]
pub struct VirtAddr(pub u64);

/// The number of a physical page.
#[derive(Clone, Copy, Debug, PartialEq, Eq, Structural)]
pub struct PhysPageNum(pub u64);

/// The number of a virtual page.
#[derive(Clone, Copy, Debug, PartialEq, Eq, Structural)]
pub struct VirtPageNum(pub u64);

impl PhysAddr {
    /// The address is within the physical address space.
    pub open spec fn valid(self) -> bool {
        self.0 < PA_LIMIT
    }

    /// The physical address made of the low 56 bits of `v`.
    pub fn new(v: u64) -> (r: Self)
        ensures
            r.0 == v % PA_LIMIT,
            r.valid(),
    {
        PhysAddr(v % PA_LIMIT)
    }

    /// The page that holds this address.
    pub fn page(self) -> (r: PhysPageNum)
        ensures
            r.0 == self.0 / 4096,
            self.valid() ==> r.valid(),
    {
        PhysPageNum(self.0 / 4096)
    }

    /// The page that holds this address.
    pub fn floor(self) -> (r: PhysPageNum)
        ensures
            r.0 == self.0 / 4096,
            self.valid() ==> r.valid(),
    {
        self.page()
    }

    /// The first page that starts at or after this address.
    pub fn ceil(self) -> (r: PhysPageNum)
        ensures
            r.0 == (self.0 + 4095) / 4096,
    {
        if self.0 % 4096 == 0 {
            PhysPageNum(self.0 / 4096)
        } else {
            PhysPageNum(self.0 / 4096 + 1)
        }
    }

    /// The offset of this address inside its page.
    pub fn page_offset(self) -> (r: u64)
        ensures
            r == self.0 % 4096,
            r < 4096,
    {
        self.0 % 4096
    }

    /// Whether this address is the first of its page.
    pub fn aligned(self) -> (r: bool)
        ensures
            r == (self.0 % 4096 == 0),
    {
        self.page_offset() == 0
    }
}

impl VirtAddr {
    /// The address is within the virtual address space.
    pub open spec fn valid(self) -> bool {
        self.0 < VA_LIMIT
    }

    /// The virtual address made of the low 39 bits of `v`.
    pub fn new(v: u64) -> (r: Self)
        ensures
            r.0 == v % VA_LIMIT,
            r.valid(),
    {
        VirtAddr(v % VA_LIMIT)
    }

    /// The page that holds this address.
    pub fn floor(self) -> (r: VirtPageNum)
        ensures
            r.0 == self.0 / 4096,
            self.valid() ==> r.valid(),
    {
        VirtPageNum(self.0 / 4096)
    }

    /// The first page that starts at or after this address.
    pub fn ceil(self) -> (r: VirtPageNum)
        ensures
            r.0 == (self.0 + 4095) / 4096,
            self.0 <= VA_LIMIT ==> r.0 <= VPN_LIMIT,
    {
        if self.0 % 4096 == 0 {
            VirtPageNum(self.0 / 4096)
        } else {
            VirtPageNum(self.0 / 4096 + 1)
        }
    }

    /// The offset of this address inside its page.
    pub fn page_offset(self) -> (r: u64)
        ensures
            r == self.0 % 4096,
            r < 4096,
    {
        self.0 % 4096
    }

    /// Whether this address is the first of its page.
    pub fn aligned(self) -> (r: bool)
        ensures
            r == (self.0 % 4096 == 0),
    {
        self.page_offset() == 0
    }

    /// The smaller of two addresses.
    pub fn min(self, other: VirtAddr) -> (r: VirtAddr)
        ensures
            r.0 == if self.0 <= other.0 { self.0 } else { other.0 },
    {
        if self.0 <= other.0 {
            self
        } else {
            other
        }
    }
}

impl PhysPageNum {
    /// The page number fits in 44 bits.
    pub open spec fn valid(self) -> bool {
        self.0 < PPN_LIMIT
    }

    /// The page number made of the low 44 bits of `v`.
    pub fn new(v: u64) -> (r: Self)
        ensures
            r.0 == v % PPN_LIMIT,
            r.valid(),
    {
        PhysPageNum(v % PPN_LIMIT)
    }

    /// The address of the first byte of this page.
    pub fn start_addr(self) -> (r: PhysAddr)
        requires
            self.valid(),
        ensures
            r.0 == self.0 * 4096,
            r.valid(),
    {
        PhysAddr(self.0 * 4096)
    }
}

impl VirtPageNum {
    /// The page number fits in 27 bits.
    pub open spec fn valid(self) -> bool {
        self.0 < VPN_LIMIT
    }

    /// The page number made of the low 27 bits of `v`.
    pub fn new(v: u64) -> (r: Self)
        ensures
            r.0 == v % VPN_LIMIT,
            r.valid(),
    {
        VirtPageNum(v % VPN_LIMIT)
    }

    /// The address of the first byte of this page.
    pub fn start_addr(self) -> (r: VirtAddr)
        requires
            self.0 <= VPN_LIMIT,
        ensures
            r.0 == self.0 * 4096,
            r.0 <= VA_LIMIT,
    {
        VirtAddr(self.0 * 4096)
    }

    /// Moves on to the next page.
    pub fn step(&mut self)
        requires
            old(self).0 < u64::MAX,
        ensures
            final(self).0 == old(self).0 + 1,
    {
        self.0 = self.0 + 1;
    }
}

} // verus!
