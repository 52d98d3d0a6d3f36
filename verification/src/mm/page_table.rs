//! The three-level page table of one address space.

use super::address::{PhysPageNum, VirtAddr, VirtPageNum, PPN_LIMIT, VA_LIMIT};
use super::frame_allocator::{
    backed, frame_alloc, lemma_alloc, FrameAllocState, FrameTracker, StackFrameAllocator,
};
use super::memory::{paged, MemoryMap, PhysMemory};
use super::pte::{lemma_entry_fields, PTEFlags, PageTableEntry, PTE_V, SATP_MODE};
use super::walk::{
    confined, index0, index1, index2, interp, l1_node, l2_node, lemma_confined_then,
    lemma_empty_tree, lemma_link_l1, lemma_link_l2, lemma_set_leaf, lemma_tree_frame,
    lemma_tree_nodes, lemma_tree_walkable, mapping, missing_nodes, tree, walkable,
};
use vstd::prelude::*;

verus! {

/// The place of one entry in memory: a node's page and an index into it.
#[derive(Clone, Copy, Debug)]
pub struct PteSlot {
    pub ppn: PhysPageNum,
    pub index: usize,
}

/// A run of bytes inside one physical page, from offset `start` up to
/// offset `end`.
#[derive(Clone, Copy, Debug, PartialEq, Eq, Structural)]
pub struct PhysRange {
    pub ppn: PhysPageNum,
    pub start: usize,
    pub end: usize,
}

/// The numbers of the pages of `frames`.
pub open spec fn frame_numbers(frames: Seq<FrameTracker>) -> Seq<int> {
    frames.map_values(|f: FrameTracker| f.spec_ppn().0 as int)
}

/// A page table: the page of its root, and the pages of the nodes that it
/// has made for itself.
pub struct PageTable {
    root_ppn: PhysPageNum,
    frames: Vec<FrameTracker>,
}

impl PageTable {
    /// The number of the root's page.
    pub closed spec fn root(&self) -> int {
        self.root_ppn.0 as int
    }

    /// The numbers of the pages that the table owns, in the order in which
    /// it got them.
    pub closed spec fn frame_list(&self) -> Seq<int> {
        frame_numbers(self.frames@)
    }

    /// The pages that the table owns.
    pub open spec fn owned(&self) -> Set<int> {
        self.frame_list().to_set()
    }

    /// What the table maps in memory `m`: the valid entries of the last
    /// level, by virtual page number.
    pub open spec fn mappings(&self, m: MemoryMap) -> Map<int, PageTableEntry> {
        interp(m, self.root())
    }

    /// The table can be read in memory `m`: every node on every way from the
    /// root exists.
    pub open spec fn readable_in(&self, m: MemoryMap) -> bool {
        walkable(m, self.root())
    }

    /// The nodes of the table lie in memory `m` and form a tree of the pages
    /// that the table owns, none of which occurs twice.
    pub open spec fn well_formed(&self, m: MemoryMap) -> bool {
        &&& paged(m)
        &&& 0 <= self.root() < PPN_LIMIT
        &&& self.frame_list().no_duplicates()
        &&& self.owned().subset_of(m.dom())
        &&& tree(m, self.root(), self.owned())
    }

    /// The allocator counts every page of the table as owned.
    pub open spec fn held(&self, a: FrameAllocState) -> bool {
        forall|p: int| self.owned().contains(p) ==> a.is_allocated(p)
    }

    /// The table is well formed in memory `m` and holds its pages from the
    /// allocator.
    pub open spec fn wf(&self, m: MemoryMap, a: FrameAllocState) -> bool {
        self.well_formed(m) && self.held(a)
    }

    /// A well-formed table can be read.
    pub proof fn lemma_wf_readable(&self, m: MemoryMap)
        requires
            self.well_formed(m),
        ensures
            self.readable_in(m),
            self.owned().contains(self.root()),
    {
        lemma_tree_walkable(m, self.root(), self.owned());
    }

    /// What others do to memory, confined to pages that the table does not
    /// own, leaves the table and what it maps as they are.
    pub proof fn lemma_wf_frame(&self, m: MemoryMap, m2: MemoryMap)
        requires
            self.well_formed(m),
            paged(m2),
            forall|p: int|
                self.owned().contains(p) ==> m2.dom().contains(p) && #[trigger] m2[p] == m[p],
        ensures
            self.well_formed(m2),
            self.mappings(m2) == self.mappings(m),
    {
        lemma_tree_frame(m, m2, self.root(), self.owned());
        assert forall|p: int| self.owned().contains(p) implies m2.dom().contains(p) by {
            assert(m2[p] == m[p]);
        }
    }

    /// A table with a fresh, zeroed root that maps nothing.
    pub fn new(allocator: &mut StackFrameAllocator, mem: &mut PhysMemory) -> (pt: Self)
        requires
            old(allocator).wf(),
            old(mem).wf(),
            backed(old(allocator)@, old(mem)@),
            old(allocator)@.free_count() >= 1,
        ensures
            final(allocator).wf(),
            final(mem).wf(),
            backed(final(allocator)@, final(mem)@),
            pt.wf(final(mem)@, final(allocator)@),
            pt.mappings(final(mem)@) == Map::<int, PageTableEntry>::empty(),
            pt.owned() == set![pt.root()],
            !old(allocator)@.is_allocated(pt.root()),
            final(allocator)@.free_count() == old(allocator)@.free_count() - 1,
            confined(
                old(allocator)@,
                final(allocator)@,
                old(mem)@,
                final(mem)@,
                Set::<int>::empty(),
            ),
    {
        proof {
            allocator.lemma_wf();
            lemma_alloc(allocator@);
        }
        let frame = frame_alloc(allocator, mem).unwrap();
        let root_ppn = frame.ppn();
        let mut frames: Vec<FrameTracker> = Vec::new();
        frames.push(frame);
        let pt = PageTable { root_ppn, frames };
        proof {
            lemma_empty_tree(mem@, pt.root());
            assert(pt.frame_list() =~= Seq::<int>::empty().push(pt.root()));
            Seq::<int>::empty().lemma_push_to_set_commute(pt.root());
            assert(Seq::<int>::empty().to_set() =~= Set::<int>::empty());
            assert(pt.owned() =~= set![pt.root()]);
            assert(mem@.dom() =~= old(mem)@.dom());
        }
        pt
    }

    /// The table whose root an address-space token names. It owns no node:
    /// it is for reading another table.
    pub fn from_token(satp: u64) -> (pt: Self)
        ensures
            pt.root() == satp % PPN_LIMIT,
            pt.owned() == Set::<int>::empty(),
    {
        assert(satp & 0xfff_ffff_ffff == satp % 0x1000_0000_0000) by (bit_vector);
        let pt = PageTable { root_ppn: PhysPageNum(satp & 0xfff_ffff_ffff), frames: Vec::new() };
        proof {
            assert(pt.frame_list() =~= Seq::<int>::empty());
            assert(pt.owned() =~= Set::<int>::empty());
        }
        pt
    }

    /// The number of the root's page.
    pub fn root_ppn(&self) -> (r: PhysPageNum)
        ensures
            r.0 == self.root(),
    {
        self.root_ppn
    }

    /// The index that `vpn` selects at `level`, the root being level 0.
    fn index_at(vpn: VirtPageNum, level: usize) -> (i: usize)
        requires
            level <= 2,
        ensures
            i < 512,
            level == 0 ==> i == index0(vpn.0 as int),
            level == 1 ==> i == index1(vpn.0 as int),
            level == 2 ==> i == index2(vpn.0 as int),
    {
        if level == 0 {
            ((vpn.0 / 0x40000) % 512) as usize
        } else if level == 1 {
            ((vpn.0 / 512) % 512) as usize
        } else {
            (vpn.0 % 512) as usize
        }
    }

    /// Walks towards the entry of the last level for `vpn`. Where a node on
    /// the way is missing, the result is the page of the last node reached
    /// and its level.
    fn try_find_pte(&self, mem: &PhysMemory, vpn: VirtPageNum) -> (r: Result<
        PteSlot,
        (PhysPageNum, usize),
    >)
        requires
            mem.wf(),
            self.readable_in(mem@),
        ensures
            match r {
                Ok(slot) => {
                    &&& l2_node(mem@, self.root(), vpn.0 as int) == Some(slot.ppn.0 as int)
                    &&& slot.index == index2(vpn.0 as int)
                    &&& slot.ppn.valid()
                },
                Err((ppn, level)) => {
                    &&& level == 0 || level == 1
                    &&& level == 0 ==> ppn.0 == self.root() && l1_node(
                        mem@,
                        self.root(),
                        vpn.0 as int,
                    ) is None
                    &&& level == 1 ==> l1_node(mem@, self.root(), vpn.0 as int) == Some(
                        ppn.0 as int,
                    ) && l2_node(mem@, self.root(), vpn.0 as int) is None
                },
            },
    {
        let mut ppn = self.root_ppn;
        let mut level: usize = 0;
        loop
            invariant
                mem.wf(),
                self.readable_in(mem@),
                level <= 2,
                level == 0 ==> ppn.0 == self.root(),
                level == 1 ==> l1_node(mem@, self.root(), vpn.0 as int) == Some(ppn.0 as int),
                level == 2 ==> l2_node(mem@, self.root(), vpn.0 as int) == Some(ppn.0 as int)
                    && ppn.valid(),
                mem@.dom().contains(ppn.0 as int),
            decreases 2 - level,
        {
            let i = Self::index_at(vpn, level);
            if level == 2 {
                return Ok(PteSlot { ppn, index: i });
            }
            let pte = PageTableEntry { bits: mem.read_word(ppn, i) };
            if !pte.is_valid() {
                return Err((ppn, level));
            }
            ppn = pte.ppn();
            level += 1;
        }
    }

    /// The place of the entry of the last level for `vpn`, if the way to it
    /// exists.
    fn find_pte(&self, mem: &PhysMemory, vpn: VirtPageNum) -> (r: Option<PteSlot>)
        requires
            mem.wf(),
            self.readable_in(mem@),
        ensures
            match r {
                Some(slot) => {
                    &&& l2_node(mem@, self.root(), vpn.0 as int) == Some(slot.ppn.0 as int)
                    &&& slot.index == index2(vpn.0 as int)
                },
                None => l2_node(mem@, self.root(), vpn.0 as int) is None,
            },
    {
        match self.try_find_pte(mem, vpn) {
            Ok(slot) => Some(slot),
            Err(_) => None,
        }
    }

    /// Makes the node that is missing below the node in page `ppn` on the
    /// way to `vpn`: a zeroed page, linked by an entry that carries the valid
    /// flag alone.
    #[verifier::rlimit(50)]
    fn link_new_node(
        &mut self,
        allocator: &mut StackFrameAllocator,
        mem: &mut PhysMemory,
        vpn: VirtPageNum,
        ppn: PhysPageNum,
        level: usize,
    ) -> (child: PhysPageNum)
        requires
            old(allocator).wf(),
            old(mem).wf(),
            backed(old(allocator)@, old(mem)@),
            old(self).wf(old(mem)@, old(allocator)@),
            old(allocator)@.free_count() >= 1,
            level == 0 || level == 1,
            level == 0 ==> ppn.0 == old(self).root() && l1_node(
                old(mem)@,
                old(self).root(),
                vpn.0 as int,
            ) is None,
            level == 1 ==> l1_node(old(mem)@, old(self).root(), vpn.0 as int) == Some(
                ppn.0 as int,
            ) && l2_node(old(mem)@, old(self).root(), vpn.0 as int) is None,
        ensures
            final(allocator).wf(),
            final(mem).wf(),
            backed(final(allocator)@, final(mem)@),
            final(self).wf(final(mem)@, final(allocator)@),
            final(self).root() == old(self).root(),
            final(self).mappings(final(mem)@) == old(self).mappings(old(mem)@),
            level == 0 ==> l1_node(final(mem)@, final(self).root(), vpn.0 as int) == Some(
                child.0 as int,
            ) && l2_node(final(mem)@, final(self).root(), vpn.0 as int) is None,
            level == 1 ==> l2_node(final(mem)@, final(self).root(), vpn.0 as int) == Some(
                child.0 as int,
            ),
            final(allocator)@.free_count() == old(allocator)@.free_count() - 1,
            confined(
                old(allocator)@,
                final(allocator)@,
                old(mem)@,
                final(mem)@,
                old(self).owned(),
            ),
            final(self).owned() == old(self).owned().insert(child.0 as int),
            final(self).frame_list() == old(self).frame_list().push(child.0 as int),
            !old(allocator)@.is_allocated(child.0 as int),
            old(allocator)@.start <= child.0 < old(allocator)@.end,
    {
        let ghost m0 = mem@;
        let ghost a0 = allocator@;
        let ghost owned0 = self.owned();
        let ghost list0 = self.frame_list();
        let ghost root = self.root();
        proof {
            allocator.lemma_wf();
            lemma_alloc(a0);
            lemma_tree_nodes(m0, root, owned0, vpn.0 as int);
        }
        let i = Self::index_at(vpn, level);
        let frame = frame_alloc(allocator, mem).unwrap();
        let child = frame.ppn();
        let ghost m1 = mem@;
        proof {
            assert(!owned0.contains(child.0 as int));
            lemma_tree_frame(m0, m1, root, owned0);
            assert(m1.dom() =~= m0.dom());
        }
        let entry = PageTableEntry::new(child, PTEFlags::from_bits(PTE_V));
        mem.write_word(ppn, i, entry.bits);
        self.frames.push(frame);
        proof {
            assert(self.frame_list() =~= list0.push(child.0 as int));
            list0.lemma_push_to_set_commute(child.0 as int);
            assert(self.owned() =~= owned0.insert(child.0 as int));
            assert(!list0.contains(child.0 as int));
            if level == 0 {
                let m2 = lemma_link_l1(m1, root, owned0, vpn.0 as int, child.0 as int);
                assert(mem@ == m2);
            } else {
                let m2 = lemma_link_l2(m1, root, owned0, vpn.0 as int, child.0 as int);
                assert(mem@ == m2);
            }
            assert(mem@.dom() =~= m0.dom());
            assert forall|p: int|
                m0.dom().contains(p) && !owned0.contains(p) && (a0.is_allocated(p) || p < a0.start
                    || p >= a0.end) implies #[trigger] mem@[p] == m0[p] by {
                assert(p != child.0);
                assert(p != ppn.0);
            }
            assert(self.frame_list().no_duplicates());
            assert(self.owned().subset_of(mem@.dom()));
            assert(tree(mem@, self.root(), self.owned()));
            assert(self.held(allocator@)) by {
                assert forall|p: int| self.owned().contains(p) implies allocator@.is_allocated(
                    p,
                ) by {
                    if p != child.0 {
                        assert(owned0.contains(p));
                        assert(a0.is_allocated(p));
                    }
                }
            }
        }
        child
    }

    /// The place of the entry of the last level for `vpn`; the nodes that
    /// are missing on the way are made first. Nothing is mapped that was not
    /// mapped before.
    #[verifier::rlimit(50)]
    fn find_pte_create(
        &mut self,
        allocator: &mut StackFrameAllocator,
        mem: &mut PhysMemory,
        vpn: VirtPageNum,
    ) -> (slot: PteSlot)
        requires
            old(allocator).wf(),
            old(mem).wf(),
            backed(old(allocator)@, old(mem)@),
            old(self).wf(old(mem)@, old(allocator)@),
            old(allocator)@.free_count() >= missing_nodes(
                old(mem)@,
                old(self).root(),
                vpn.0 as int,
            ),
        ensures
            final(allocator).wf(),
            final(mem).wf(),
            backed(final(allocator)@, final(mem)@),
            final(self).wf(final(mem)@, final(allocator)@),
            final(self).root() == old(self).root(),
            l2_node(final(mem)@, final(self).root(), vpn.0 as int) == Some(slot.ppn.0 as int),
            slot.index == index2(vpn.0 as int),
            final(self).mappings(final(mem)@) == old(self).mappings(old(mem)@),
            final(allocator)@.free_count() == old(allocator)@.free_count() - missing_nodes(
                old(mem)@,
                old(self).root(),
                vpn.0 as int,
            ),
            final(self).frame_list().len() == old(self).frame_list().len() + missing_nodes(
                old(mem)@,
                old(self).root(),
                vpn.0 as int,
            ),
            confined(
                old(allocator)@,
                final(allocator)@,
                old(mem)@,
                final(mem)@,
                old(self).owned(),
            ),
            forall|p: int|
                final(self).owned().contains(p) ==> old(self).owned().contains(p) || !old(
                    allocator,
                )@.is_allocated(p),
            old(self).owned().subset_of(final(self).owned()),
    {
        proof {
            self.lemma_wf_readable(mem@);
            allocator.lemma_wf();
        }
        let found = self.try_find_pte(mem, vpn);
        match found {
            Ok(slot) => slot,
            Err((start, start_level)) => {
                let mut ppn = start;
                let mut level = start_level;
                proof {
                    assert forall|p: int| self.owned().contains(p) implies allocator@.start <= p
                        < allocator@.end by {
                        assert(allocator@.is_allocated(p));
                    }
                }
                loop
                    invariant
                        allocator.wf(),
                        mem.wf(),
                        backed(allocator@, mem@),
                        self.wf(mem@, allocator@),
                        self.root() == old(self).root(),
                        self.mappings(mem@) == old(self).mappings(old(mem)@),
                        level <= 2,
                        level == 0 ==> ppn.0 == self.root() && l1_node(
                            mem@,
                            self.root(),
                            vpn.0 as int,
                        ) is None,
                        level == 1 ==> l1_node(mem@, self.root(), vpn.0 as int) == Some(
                            ppn.0 as int,
                        ) && l2_node(mem@, self.root(), vpn.0 as int) is None,
                        level == 2 ==> l2_node(mem@, self.root(), vpn.0 as int) == Some(
                            ppn.0 as int,
                        ),
                        allocator@.free_count() >= 2 - level,
                        allocator@.free_count() - (2 - level) == old(allocator)@.free_count()
                            - missing_nodes(old(mem)@, old(self).root(), vpn.0 as int),
                        self.frame_list().len() + (2 - level) == old(self).frame_list().len()
                            + missing_nodes(old(mem)@, old(self).root(), vpn.0 as int),
                        confined(old(allocator)@, allocator@, old(mem)@, mem@, old(self).owned()),
                        forall|p: int|
                            self.owned().contains(p) ==> old(self).owned().contains(p) || !old(
                                allocator,
                            )@.is_allocated(p),
                        forall|p: int|
                            self.owned().contains(p) ==> old(allocator)@.start <= p < old(
                                allocator,
                            )@.end,
                        old(self).owned().subset_of(self.owned()),
                    decreases 2 - level,
                {
                    if level == 2 {
                        return PteSlot { ppn, index: Self::index_at(vpn, 2) };
                    }
                    let ghost m1 = mem@;
                    let ghost a1 = allocator@;
                    let ghost owned1 = self.owned();
                    ppn = self.link_new_node(allocator, mem, vpn, ppn, level);
                    proof {
                        lemma_confined_then(
                            old(allocator)@,
                            a1,
                            allocator@,
                            old(mem)@,
                            m1,
                            mem@,
                            old(self).owned(),
                            owned1,
                        );
                    }
                    level += 1;
                }
            },
        }
    }

    /// Maps page `vpn` to page `ppn` with `flags` and the valid flag. The
    /// page must not be mapped yet.
    #[verifier::rlimit(50)]
    pub fn map(
        &mut self,
        allocator: &mut StackFrameAllocator,
        mem: &mut PhysMemory,
        vpn: VirtPageNum,
        ppn: PhysPageNum,
        flags: PTEFlags,
    )
        requires
            old(allocator).wf(),
            old(mem).wf(),
            backed(old(allocator)@, old(mem)@),
            old(self).wf(old(mem)@, old(allocator)@),
            vpn.valid(),
            ppn.valid(),
            !old(self).mappings(old(mem)@).dom().contains(vpn.0 as int),
            old(allocator)@.free_count() >= missing_nodes(
                old(mem)@,
                old(self).root(),
                vpn.0 as int,
            ),
        ensures
            final(allocator).wf(),
            final(mem).wf(),
            backed(final(allocator)@, final(mem)@),
            final(self).wf(final(mem)@, final(allocator)@),
            final(self).root() == old(self).root(),
            final(self).mappings(final(mem)@) == old(self).mappings(old(mem)@).insert(
                vpn.0 as int,
                PageTableEntry::spec_new(ppn.0 as int, flags.spec_with(PTE_V)),
            ),
            final(allocator)@.free_count() == old(allocator)@.free_count() - missing_nodes(
                old(mem)@,
                old(self).root(),
                vpn.0 as int,
            ),
            final(self).frame_list().len() == old(self).frame_list().len() + missing_nodes(
                old(mem)@,
                old(self).root(),
                vpn.0 as int,
            ),
            confined(
                old(allocator)@,
                final(allocator)@,
                old(mem)@,
                final(mem)@,
                old(self).owned(),
            ),
            forall|p: int|
                final(self).owned().contains(p) ==> old(self).owned().contains(p) || !old(
                    allocator,
                )@.is_allocated(p),
            old(self).owned().subset_of(final(self).owned()),
    {
        proof {
            allocator.lemma_wf();
        }
        let slot = self.find_pte_create(allocator, mem, vpn);
        let entry = PageTableEntry::new(ppn, flags.with(PTE_V));
        let ghost m1 = mem@;
        proof {
            allocator.lemma_wf();
            lemma_entry_fields(ppn.0 as int, flags.spec_with(PTE_V));
            lemma_entry_fields(ppn.0 as int, flags);
            lemma_tree_nodes(m1, self.root(), self.owned(), vpn.0 as int);
        }
        mem.write_word(slot.ppn, slot.index, entry.bits);
        proof {
            let m2 = lemma_set_leaf(m1, self.root(), self.owned(), vpn.0 as int, entry);
            assert(mem@ == m2);
            assert(entry.spec_is_valid());
            assert(mem@.dom() =~= m1.dom());
            let a0 = old(allocator)@;
            let m0 = old(mem)@;
            let owned0 = old(self).owned();
            assert forall|p: int|
                m0.dom().contains(p) && !owned0.contains(p) && (a0.is_allocated(p) || p < a0.start
                    || p >= a0.end) implies #[trigger] mem@[p] == m0[p] by {
                assert(m1[p] == m0[p]);
                assert(self.owned().contains(slot.ppn.0 as int));
                assert(allocator@.is_allocated(slot.ppn.0 as int));
                assert(p != slot.ppn.0);
            }
        }
    }

    /// Ends the mapping of page `vpn`, which must be mapped. The nodes on
    /// the way to it stay.
    pub fn unmap(&mut self, mem: &mut PhysMemory, vpn: VirtPageNum)
        requires
            old(mem).wf(),
            old(self).well_formed(old(mem)@),
            vpn.valid(),
            old(self).mappings(old(mem)@).dom().contains(vpn.0 as int),
        ensures
            final(mem).wf(),
            final(mem).spec_base() == old(mem).spec_base(),
            final(mem).spec_end() == old(mem).spec_end(),
            final(mem)@.dom() == old(mem)@.dom(),
            final(self).well_formed(final(mem)@),
            final(self).root() == old(self).root(),
            final(self).owned() == old(self).owned(),
            final(self).mappings(final(mem)@) == old(self).mappings(old(mem)@).remove(
                vpn.0 as int,
            ),
            forall|p: int|
                old(mem)@.dom().contains(p) && !old(self).owned().contains(p)
                    ==> #[trigger] final(mem)@[p] == old(mem)@[p],
    {
        let ghost m1 = mem@;
        proof {
            self.lemma_wf_readable(m1);
            lemma_tree_nodes(m1, self.root(), self.owned(), vpn.0 as int);
        }
        let slot = self.find_pte(mem, vpn).unwrap();
        let entry = PageTableEntry::empty();
        mem.write_word(slot.ppn, slot.index, entry.bits);
        proof {
            let m2 = lemma_set_leaf(m1, self.root(), self.owned(), vpn.0 as int, entry);
            assert(mem@ == m2);
            assert(mem@.dom() =~= m1.dom());
        }
    }

    /// Gives every page of the table back to the allocator. The table is
    /// gone.
    pub fn release(self, allocator: &mut StackFrameAllocator)
        requires
            old(allocator).wf(),
            self.frame_list().no_duplicates(),
            self.held(old(allocator)@),
        ensures
            final(allocator).wf(),
            final(allocator)@.start == old(allocator)@.start,
            final(allocator)@.end == old(allocator)@.end,
            final(allocator)@.free_count() == old(allocator)@.free_count()
                + self.frame_list().len(),
            forall|q: int|
                #[trigger] final(allocator)@.is_allocated(q) == (old(allocator)@.is_allocated(q)
                    && !self.owned().contains(q)),
    {
        proof {
            assert forall|k: int| 0 <= k < self.frame_list().len() implies old(
                allocator,
            )@.is_allocated(#[trigger] self.frame_list()[k]) by {
                assert(self.owned().contains(self.frame_list()[k]));
            }
        }
        super::area::release_frames(allocator, self.frames);
    }

    /// The entry that page `vpn` is mapped by, or `None` where it is not
    /// mapped.
    pub fn translate(&self, mem: &PhysMemory, vpn: VirtPageNum) -> (r: Option<PageTableEntry>)
        requires
            mem.wf(),
            self.readable_in(mem@),
        ensures
            r == mapping(mem@, self.root(), vpn.0 as int),
            vpn.valid() ==> r == if self.mappings(mem@).dom().contains(vpn.0 as int) {
                Some(self.mappings(mem@)[vpn.0 as int])
            } else {
                None
            },
    {
        match self.find_pte(mem, vpn) {
            Some(slot) => {
                let entry = PageTableEntry { bits: mem.read_word(slot.ppn, slot.index) };
                if entry.is_valid() {
                    Some(entry)
                } else {
                    None
                }
            },
            None => None,
        }
    }

    /// The token that names this table to the hardware: the mode tag for
    /// three-level paging above the number of the root's page.
    pub fn token(&self) -> (t: u64)
        requires
            0 <= self.root() < PPN_LIMIT,
        ensures
            t == SATP_MODE + self.root(),
            t % PPN_LIMIT == self.root(),
    {
        let r: u64 = self.root_ppn.0;
        assert((8u64 << 60 | r) == 0x8000_0000_0000_0000 + r) by (bit_vector)
            requires
                r < 0x1000_0000_0000,
        ;
        8u64 << 60 | r
    }
}


/// What a translation finds after a page was mapped: the page that was
/// mapped has the entry that points to the physical page that `map` was
/// given, with the flags that it was given and the valid flag; every other
/// page is mapped as before, or not mapped if it was not.
pub proof fn lemma_translate_after_map(
    before: Map<int, PageTableEntry>,
    vpn: int,
    ppn: int,
    flags: PTEFlags,
    other: int,
)
    requires
        0 <= ppn < PPN_LIMIT,
    ensures
        ({
            let after = before.insert(
                vpn,
                PageTableEntry::spec_new(ppn, flags.spec_with(PTE_V)),
            );
            &&& after.dom().contains(vpn)
            &&& after[vpn].spec_ppn() == ppn
            &&& after[vpn].spec_flags() == flags.spec_with(PTE_V)
            &&& after[vpn].spec_is_valid()
            &&& other != vpn ==> after.dom().contains(other) == before.dom().contains(other)
            &&& other != vpn && before.dom().contains(other) ==> after[other] == before[other]
        }),
{
    lemma_entry_fields(ppn, flags.spec_with(PTE_V));
    lemma_entry_fields(ppn, flags);
}

/// The number of pages that the `len` bytes from address `start` on touch.
pub open spec fn pages_spanned(start: int, len: int) -> int {
    if len <= 0 {
        0
    } else {
        (start + len - 1) / 4096 - start / 4096 + 1
    }
}

/// The part of the `i`-th page touched by the bytes from address `start` up
/// to address `end`, as a run of bytes in the physical page that the table
/// rooted at `root` maps it to.
pub open spec fn chunk(m: MemoryMap, root: int, start: int, end: int, i: int) -> PhysRange {
    let vpn = start / 4096 + i;
    PhysRange {
        ppn: PhysPageNum(mapping(m, root, vpn).unwrap().spec_ppn() as u64),
        start: if i == 0 {
            (start % 4096) as usize
        } else {
            0
        },
        end: if (vpn + 1) * 4096 <= end {
            4096
        } else {
            (end % 4096) as usize
        },
    }
}

/// Finds the `len` bytes that start at virtual address `start` of the
/// address space named by `token` in physical memory: one run of bytes for
/// each page touched, in the order of the addresses. Every page touched must
/// be mapped.
#[verifier::rlimit(50)]
pub fn translated_byte_buffer(mem: &PhysMemory, token: u64, start: u64, len: u64) -> (v: Vec<
    PhysRange,
>)
    requires
        mem.wf(),
        walkable(mem@, token as int % PPN_LIMIT as int),
        start + len <= VA_LIMIT,
        forall|vpn: int|
            len > 0 && start as int / 4096 <= vpn && vpn * 4096 < start + len ==> (
            #[trigger] mapping(mem@, token as int % PPN_LIMIT as int, vpn)) is Some,
    ensures
        v@.len() == pages_spanned(start as int, len as int),
        forall|i: int|
            0 <= i < v@.len() ==> #[trigger] v@[i] == chunk(
                mem@,
                token as int % PPN_LIMIT as int,
                start as int,
                start + len,
                i,
            ),
        forall|i: int| 0 <= i < v@.len() ==> (#[trigger] v@[i]).start < v@[i].end <= 4096,
{
    let page_table = PageTable::from_token(token);
    let ghost root = token as int % PPN_LIMIT as int;
    let ghost first = start as int / 4096;
    let end: u64 = start + len;
    let mut cur: u64 = start;
    let mut v: Vec<PhysRange> = Vec::new();
    while cur < end
        invariant
            mem.wf(),
            page_table.root() == root,
            walkable(mem@, root),
            first == start as int / 4096,
            end == start + len,
            end <= VA_LIMIT,
            start <= cur,
            v@.len() == 0 ==> cur == start,
            v@.len() > 0 ==> start < end,
            v@.len() > 0 ==> (first + v@.len()) * 4096 <= end && cur == (first + v@.len()) * 4096 || (
            first + v@.len()) * 4096 > end && cur == end && (first + v@.len() - 1) * 4096 < end,
            forall|vpn: int|
                len > 0 && first <= vpn && vpn * 4096 < end ==> (#[trigger] mapping(
                    mem@,
                    root,
                    vpn,
                )) is Some,
            forall|i: int|
                0 <= i < v@.len() ==> #[trigger] v@[i] == chunk(
                    mem@,
                    root,
                    start as int,
                    end as int,
                    i,
                ),
            forall|i: int| 0 <= i < v@.len() ==> (#[trigger] v@[i]).start < v@[i].end <= 4096,
        decreases end - cur,
    {
        let start_va = VirtAddr(cur);
        let mut vpn = start_va.floor();
        assert(vpn.0 == first + v@.len());
        assert(mapping(mem@, root, vpn.0 as int) is Some);
        let ppn = page_table.translate(mem, vpn).unwrap().ppn();
        vpn.step();
        let mut end_va: VirtAddr = vpn.start_addr();
        end_va = end_va.min(VirtAddr(end));
        if end_va.page_offset() == 0 {
            v.push(PhysRange { ppn, start: start_va.page_offset() as usize, end: 4096 });
        } else {
            v.push(
                PhysRange {
                    ppn,
                    start: start_va.page_offset() as usize,
                    end: end_va.page_offset() as usize,
                },
            );
        }
        cur = end_va.0;
    }
    proof {
        if v@.len() > 0 {
            let last = first + v@.len() - 1;
            assert(last * 4096 <= end - 1 < (last + 1) * 4096);
            assert((end - 1) / 4096 == last);
        }
    }
    v
}

} // verus!
