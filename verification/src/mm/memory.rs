//! Physical memory as a value: a run of pages of 512 machine words each.

use super::address::PhysPageNum;
use vstd::prelude::*;

verus! {

/// The contents of physical memory: for each page that exists, its words.
pub type MemoryMap = Map<int, Seq<u64>>;

/// Every page of `m` has 512 words.
pub open spec fn paged(m: MemoryMap) -> bool {
    forall|p: int| m.dom().contains(p) ==> (#[trigger] m[p]).len() == 512
}

/// A page of zeroes.
pub open spec fn zero_page() -> Seq<u64> {
    Seq::new(512, |i: int| 0u64)
}

/// Byte `k` of word `w`, the lowest byte first.
pub open spec fn byte_of(w: u64, k: u64) -> u8 {
    ((w >> (8 * k)) & 0xff) as u8
}

/// Word `w` with byte `k` replaced by `b`.
pub open spec fn with_byte(w: u64, k: u64, b: u8) -> u64 {
    (w & !(0xffu64 << (8 * k))) | ((b as u64) << (8 * k))
}

/// The byte at offset `off` of a page.
pub open spec fn page_byte(page: Seq<u64>, off: int) -> u8 {
    byte_of(page[off / 8], (off % 8) as u64)
}

/// Replacing a byte of a word changes that byte and no other.
pub proof fn lemma_with_byte(w: u64, k: u64, b: u8, j: u64)
    requires
        k < 8,
        j < 8,
    ensures
        byte_of(with_byte(w, k, b), j) == if j == k {
            b
        } else {
            byte_of(w, j)
        },
{
    assert(((((w & !(0xffu64 << (8 * k))) | ((b as u64) << (8 * k))) >> (8 * j)) & 0xff) as u8
        == if j == k {
        b
    } else {
        ((w >> (8 * j)) & 0xff) as u8
    }) by (bit_vector)
        requires
            k < 8,
            j < 8,
    ;
}

/// The machine's physical memory from page `base` on.
pub struct PhysMemory {
    base: u64,
    words: Vec<u64>,
}

impl View for PhysMemory {
    type V = MemoryMap;

    closed spec fn view(&self) -> MemoryMap {
        Map::new(
            |p: int| self.base <= p && (p - self.base) * 512 + 512 <= self.words@.len(),
            |p: int| self.words@.subrange((p - self.base) * 512, (p - self.base) * 512 + 512),
        )
    }
}

impl PhysMemory {
    /// The memory holds whole pages only.
    pub closed spec fn inv(&self) -> bool {
        &&& self.words@.len() % 512 == 0
        &&& self.base + self.words@.len() / 512 <= u64::MAX
    }

    /// The memory is a run of whole pages.
    pub open spec fn wf(&self) -> bool {
        &&& self.inv()
        &&& paged(self@)
        &&& forall|p: int| self@.dom().contains(p) <==> self.spec_base() <= p < self.spec_end()
        &&& 0 <= self.spec_base() <= self.spec_end() <= u64::MAX
    }

    /// The number of the first page.
    pub closed spec fn spec_base(&self) -> int {
        self.base as int
    }

    /// One more than the number of the last page.
    pub closed spec fn spec_end(&self) -> int {
        self.base + self.words@.len() / 512
    }

    /// Memory of `frames` pages of zeroes, the first of them page `base`.
    pub fn new(base: PhysPageNum, frames: usize) -> (m: Self)
        requires
            frames <= 0x10_0000,
            base.0 + frames <= u64::MAX,
        ensures
            m.wf(),
            m.spec_base() == base.0,
            m.spec_end() == base.0 + frames,
            forall|p: int| m@.dom().contains(p) ==> #[trigger] m@[p] == zero_page(),
    {
        let mut words: Vec<u64> = Vec::new();
        let n: usize = frames * 512;
        let mut i: usize = 0;
        while i < n
            invariant
                i <= n,
                words@.len() == i,
                forall|k: int| 0 <= k < i ==> words@[k] == 0,
            decreases n - i,
        {
            words.push(0);
            i += 1;
        }
        let m = PhysMemory { base: base.0, words };
        proof {
            assert forall|p: int| m@.dom().contains(p) implies #[trigger] m@[p] == zero_page() by {
                assert(m@[p] =~= zero_page());
            }
        }
        m
    }

    /// The number of the first page.
    pub fn base(&self) -> (r: PhysPageNum)
        ensures
            r.0 == self.spec_base(),
    {
        PhysPageNum(self.base)
    }

    /// One more than the number of the last page.
    pub fn end(&self) -> (r: PhysPageNum)
        requires
            self.wf(),
        ensures
            r.0 == self.spec_end(),
    {
        PhysPageNum(self.base + (self.words.len() / 512) as u64)
    }

    /// Whether the memory has page `ppn`.
    pub fn contains(&self, ppn: PhysPageNum) -> (b: bool)
        requires
            self.wf(),
        ensures
            b == self@.dom().contains(ppn.0 as int),
    {
        self.base <= ppn.0 && ppn.0 - self.base < (self.words.len() / 512) as u64
    }

    /// Where word `idx` of page `ppn` lies in `words`.
    fn slot(&self, ppn: PhysPageNum, idx: usize) -> (k: usize)
        requires
            self.wf(),
            self@.dom().contains(ppn.0 as int),
            idx < 512,
        ensures
            k == (ppn.0 - self.base) * 512 + idx,
            k < self.words@.len(),
            self@[ppn.0 as int][idx as int] == self.words@[k as int],
    {
        let page: u64 = ppn.0 - self.base;
        let n: usize = self.words.len();
        assert(page * 512 + 512 <= n);
        let k: usize = (page as usize) * 512 + idx;
        assert(self@[ppn.0 as int][idx as int] == self.words@.subrange(page * 512, page * 512 + 512)[idx as int]);
        k
    }

    /// Word `idx` of page `ppn`.
    pub fn read_word(&self, ppn: PhysPageNum, idx: usize) -> (w: u64)
        requires
            self.wf(),
            self@.dom().contains(ppn.0 as int),
            idx < 512,
        ensures
            w == self@[ppn.0 as int][idx as int],
    {
        let k = self.slot(ppn, idx);
        self.words[k]
    }

    /// Stores `value` as word `idx` of page `ppn`.
    pub fn write_word(&mut self, ppn: PhysPageNum, idx: usize, value: u64)
        requires
            old(self).wf(),
            old(self)@.dom().contains(ppn.0 as int),
            idx < 512,
        ensures
            final(self).wf(),
            final(self).spec_base() == old(self).spec_base(),
            final(self).spec_end() == old(self).spec_end(),
            final(self)@ == old(self)@.insert(
                ppn.0 as int,
                old(self)@[ppn.0 as int].update(idx as int, value),
            ),
    {
        let k = self.slot(ppn, idx);
        self.words.set(k, value);
        proof {
            let want = old(self)@.insert(
                ppn.0 as int,
                old(self)@[ppn.0 as int].update(idx as int, value),
            );
            assert forall|p: int| self@.dom().contains(p) implies #[trigger] self@[p] == want[p] by {
                assert(self@[p] =~= want[p]);
            }
            assert(self@ =~= want);
        }
    }

    /// Fills page `ppn` with zeroes.
    pub fn zero_frame(&mut self, ppn: PhysPageNum)
        requires
            old(self).wf(),
            old(self)@.dom().contains(ppn.0 as int),
        ensures
            final(self).wf(),
            final(self).spec_base() == old(self).spec_base(),
            final(self).spec_end() == old(self).spec_end(),
            final(self)@ == old(self)@.insert(ppn.0 as int, zero_page()),
    {
        let mut i: usize = 0;
        while i < 512
            invariant
                i <= 512,
                self.wf(),
                self.spec_base() == old(self).spec_base(),
                self.spec_end() == old(self).spec_end(),
                self@.dom() == old(self)@.dom(),
                self@.dom().contains(ppn.0 as int),
                forall|p: int| p != ppn.0 && self@.dom().contains(p) ==> self@[p] == old(self)@[p],
                forall|k: int| 0 <= k < i ==> self@[ppn.0 as int][k] == 0,
            decreases 512 - i,
        {
            self.write_word(ppn, i, 0);
            i += 1;
        }
        proof {
            let want = old(self)@.insert(ppn.0 as int, zero_page());
            assert(self@[ppn.0 as int] =~= zero_page());
            assert(self@ =~= want);
        }
    }

    /// The byte at offset `off` of page `ppn`.
    pub fn read_byte(&self, ppn: PhysPageNum, off: usize) -> (b: u8)
        requires
            self.wf(),
            self@.dom().contains(ppn.0 as int),
            off < 4096,
        ensures
            b == page_byte(self@[ppn.0 as int], off as int),
    {
        let w = self.read_word(ppn, off / 8);
        let k: u64 = (off % 8) as u64;
        assert(((w >> (8 * k)) & 0xff) < 256) by (bit_vector);
        ((w >> (8 * k)) & 0xff) as u8
    }

    /// Stores `value` as the byte at offset `off` of page `ppn`.
    pub fn write_byte(&mut self, ppn: PhysPageNum, off: usize, value: u8)
        requires
            old(self).wf(),
            old(self)@.dom().contains(ppn.0 as int),
            off < 4096,
        ensures
            final(self).wf(),
            final(self).spec_base() == old(self).spec_base(),
            final(self).spec_end() == old(self).spec_end(),
            final(self)@.dom() == old(self)@.dom(),
            forall|p: int|
                p != ppn.0 && old(self)@.dom().contains(p) ==> #[trigger] final(self)@[p] == old(
                    self,
                )@[p],
            forall|o: int|
                0 <= o < 4096 ==> #[trigger] page_byte(final(self)@[ppn.0 as int], o) == if o
                    == off {
                    value
                } else {
                    page_byte(old(self)@[ppn.0 as int], o)
                },
    {
        let w = self.read_word(ppn, off / 8);
        let k: u64 = (off % 8) as u64;
        let updated: u64 = (w & !(0xffu64 << (8 * k))) | ((value as u64) << (8 * k));
        self.write_word(ppn, off / 8, updated);
        proof {
            assert forall|o: int| 0 <= o < 4096 implies #[trigger] page_byte(
                self@[ppn.0 as int],
                o,
            ) == if o == off {
                value
            } else {
                page_byte(old(self)@[ppn.0 as int], o)
            } by {
                if o / 8 == off as int / 8 {
                    lemma_with_byte(w, k, value, (o % 8) as u64);
                }
            }
        }
    }
}

} // verus!
