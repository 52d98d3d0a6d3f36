//! Page table entries and their flags.

use super::address::{PhysPageNum, PPN_LIMIT};
use vstd::prelude::*;

verus! {

/// Flag of a page table entry: the entry is valid.
pub const PTE_V: u8 = 1;

/// Flag of a page table entry: the page may be read.
pub const PTE_R: u8 = 2;

/// Flag of a page table entry: the page may be written.
pub const PTE_W: u8 = 4;

/// Flag of a page table entry: the page may be executed.
pub const PTE_X: u8 = 8;

/// Flag of a page table entry: the page is accessible in user mode.
pub const PTE_U: u8 = 16;

/// Flag of a page table entry: the mapping is global.
pub const PTE_G: u8 = 32;

/// Flag of a page table entry: the page has been accessed.
pub const PTE_A: u8 = 64;

/// Flag of a page table entry: the page has been written.
pub const PTE_D: u8 = 128;

/// The mode tag of an address-space token: three-level paging.
pub const SATP_MODE: u64 = 0x8000_0000_0000_0000;

/// The flags of a page table entry, one bit each.
#[derive(Clone, Copy, Debug, PartialEq, Eq, Structural)]
pub struct PTEFlags {
    pub bits: u8,
}

impl PTEFlags {
    /// The flags with the given bits.
    pub fn from_bits(bits: u8) -> (r: Self)
        ensures
            r.bits == bits,
    {
        PTEFlags { bits }
    }

    /// No flag at all.
    pub fn empty() -> (r: Self)
        ensures
            r.bits == 0,
    {
        PTEFlags { bits: 0 }
    }

    /// The bits of the flags.
    pub fn bits(self) -> (r: u8)
        ensures
            r == self.bits,
    {
        self.bits
    }

    /// Every flag among `mask` is set in `self`.
    pub open spec fn spec_contains(self, mask: u8) -> bool {
        self.bits & mask == mask
    }

    /// Whether every flag among `mask` is set in `self`.
    #[verifier::when_used_as_spec(spec_contains)]
    pub fn contains(self, mask: u8) -> (b: bool)
        ensures
            b == self.spec_contains(mask),
    {
        self.bits & mask == mask
    }

    /// The flags of `self` together with those among `mask`.
    pub open spec fn spec_with(self, mask: u8) -> PTEFlags {
        PTEFlags { bits: self.bits | mask }
    }

    /// The flags of `self` together with those among `mask`.
    #[verifier::when_used_as_spec(spec_with)]
    pub fn with(self, mask: u8) -> (r: PTEFlags)
        ensures
            r == self.spec_with(mask),
    {
        PTEFlags { bits: self.bits | mask }
    }
}

/// An entry of a page table: a physical page number above ten bits of flags.
#[derive(Clone, Copy, Debug, PartialEq, Eq, Structural)]
pub struct PageTableEntry {
    pub bits: u64,
}

impl PageTableEntry {
    /// The entry that points to page `ppn` with `flags`.
    pub open spec fn spec_new(ppn: int, flags: PTEFlags) -> PageTableEntry {
        PageTableEntry { bits: (ppn * 1024 + flags.bits) as u64 }
    }

    /// The number of the page that the entry points to.
    pub open spec fn spec_ppn(self) -> int {
        (self.bits as int / 1024) % 0x1000_0000_0000
    }

    /// The flags of the entry.
    pub open spec fn spec_flags(self) -> PTEFlags {
        PTEFlags { bits: (self.bits % 256) as u8 }
    }

    /// The valid flag is set.
    pub open spec fn spec_is_valid(self) -> bool {
        self.bits % 2 == 1
    }

    /// The entry that is absent: all bits zero.
    pub fn empty() -> (e: Self)
        ensures
            e.bits == 0,
            !e.spec_is_valid(),
    {
        PageTableEntry { bits: 0 }
    }

    /// The entry that points to page `ppn` with `flags`.
    pub fn new(ppn: PhysPageNum, flags: PTEFlags) -> (e: Self)
        requires
            ppn.valid(),
        ensures
            e == Self::spec_new(ppn.0 as int, flags),
            e.spec_ppn() == ppn.0,
            e.spec_flags() == flags,
            e.spec_is_valid() == flags.spec_contains(PTE_V),
    {
        let p: u64 = ppn.0;
        let f: u8 = flags.bits;
        assert((p << 10 | f as u64) == p * 1024 + f) by (bit_vector)
            requires
                p < 0x1000_0000_0000,
        ;
        assert((f & 1 == 1) == (f % 2 == 1)) by (bit_vector);
        PageTableEntry { bits: p << 10 | f as u64 }
    }

    /// The number of the page that the entry points to.
    #[verifier::when_used_as_spec(spec_ppn_num)]
    pub fn ppn(&self) -> (r: PhysPageNum)
        ensures
            r.0 == self.spec_ppn(),
            r.valid(),
    {
        let b: u64 = self.bits;
        assert((b >> 10) & 0xfff_ffff_ffff == (b / 1024) % 0x1000_0000_0000) by (bit_vector);
        PhysPageNum((b >> 10) & 0xfff_ffff_ffff)
    }

    /// The number of the page that the entry points to.
    pub open spec fn spec_ppn_num(&self) -> PhysPageNum {
        PhysPageNum(self.spec_ppn() as u64)
    }

    /// The flags of the entry.
    #[verifier::when_used_as_spec(spec_flags_ref)]
    pub fn flags(&self) -> (r: PTEFlags)
        ensures
            r == self.spec_flags(),
    {
        let b: u64 = self.bits;
        assert(b & 0xff == b % 256) by (bit_vector);
        PTEFlags { bits: (b & 0xff) as u8 }
    }

    /// The flags of the entry.
    pub open spec fn spec_flags_ref(&self) -> PTEFlags {
        self.spec_flags()
    }

    /// Whether the valid flag is set.
    pub fn is_valid(&self) -> (b: bool)
        ensures
            b == self.spec_is_valid(),
            b == self.spec_flags().spec_contains(PTE_V),
    {
        let w: u64 = self.bits;
        assert(((w % 256) as u8 & 1 == 1) == (w % 2 == 1)) by (bit_vector);
        self.flags().contains(PTE_V)
    }

    /// Whether the page may be read.
    pub fn readable(&self) -> (b: bool)
        ensures
            b == self.spec_flags().spec_contains(PTE_R),
    {
        self.flags().contains(PTE_R)
    }

    /// Whether the page may be written.
    pub fn writable(&self) -> (b: bool)
        ensures
            b == self.spec_flags().spec_contains(PTE_W),
    {
        self.flags().contains(PTE_W)
    }

    /// Whether the page may be executed.
    pub fn executable(&self) -> (b: bool)
        ensures
            b == self.spec_flags().spec_contains(PTE_X),
    {
        self.flags().contains(PTE_X)
    }
}

/// What [`PageTableEntry::spec_new`] makes can be read back, and the entry is
/// valid exactly when the valid flag was given.
pub proof fn lemma_entry_fields(ppn: int, flags: PTEFlags)
    requires
        0 <= ppn < PPN_LIMIT,
    ensures
        PageTableEntry::spec_new(ppn, flags).spec_ppn() == ppn,
        PageTableEntry::spec_new(ppn, flags).spec_flags() == flags,
        PageTableEntry::spec_new(ppn, flags).spec_is_valid() == flags.spec_contains(PTE_V),
        flags.spec_with(PTE_V).spec_contains(PTE_V),
{
    let f: u8 = flags.bits;
    assert((f & 1 == 1) == (f % 2 == 1)) by (bit_vector);
    assert((f | 1) & 1 == 1) by (bit_vector);
}

} // verus!
