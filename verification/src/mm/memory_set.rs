//! Address spaces: a page table together with the regions that it maps.

use super::address::{PhysPageNum, VirtAddr, VirtPageNum, PPN_LIMIT, VA_LIMIT, VPN_LIMIT};
use super::area::{
    agree_at, clip, frames_bound, frames_byte, frames_held, AreaView, MapArea, MapPermission,
    MapType, MAP_R, MAP_X,
};
use super::frame_allocator::{backed, FrameAllocState, StackFrameAllocator};
use super::memory::{paged, zero_page, MemoryMap, PhysMemory};
use super::page_table::PageTable;
use super::pte::PageTableEntry;
use super::regions::{
    carved, lemma_carve_region, lemma_push_region, region_frames, regions_apart, regions_cover,
    regions_fit, regions_ok,
};
use super::walk::confined;
use super::elf::{
    entry_point, load_segments, loadable, parse_elf, segments_ok, ProgramHeader, PF_R, PF_W, PF_X,
};
use super::area::{MAP_U, MAP_W};
use crate::config::{PAGE_SIZE, TRAMPOLINE, TRAP_CONTEXT, USER_STACK_SIZE};
use vstd::slice::slice_subrange;
use vstd::prelude::*;

verus! {

/// The regions of `areas` as mathematics.
pub open spec fn area_views(areas: Seq<MapArea>) -> Seq<AreaView> {
    areas.map_values(|a: MapArea| a@)
}

/// The physical pages that the first `n` regions of `r` own for their
/// pages from `lo` up to `hi`.
pub open spec fn frames_in_range(r: Seq<AreaView>, n: int, lo: int, hi: int) -> Set<int> {
    Set::new(
        |p: int|
            exists|j: int|
                0 <= j < n && j < r.len() && #[trigger] r[j].frames_between(lo, hi).contains(p),
    )
}

/// The pages from `lo` up to `hi`.
pub open spec fn page_range(lo: int, hi: int) -> Set<int> {
    Set::new(|v: int| lo <= v < hi)
}

/// An address space.
pub struct MemorySet {
    page_table: PageTable,
    areas: Vec<MapArea>,
}

impl MemorySet {
    /// The page table of the address space.
    pub closed spec fn table(&self) -> PageTable {
        self.page_table
    }

    /// The regions of the address space, in the order in which they were
    /// added.
    pub closed spec fn regions(&self) -> Seq<AreaView> {
        area_views(self.areas@)
    }

    /// What the address space maps in memory `m`, by virtual page number.
    pub open spec fn mappings(&self, m: MemoryMap) -> Map<int, PageTableEntry> {
        self.table().mappings(m)
    }

    /// The physical pages that the address space owns: the nodes of its page
    /// table and the pages of its framed regions.
    pub open spec fn owned(&self) -> Set<int> {
        self.table().owned().union(region_frames(self.regions()))
    }

    /// The page table is well formed, and the regions describe what it
    /// maps: every region is mapped page for page, every mapped page
    /// belongs to one region, and no two regions share a page.
    pub open spec fn wf(&self, m: MemoryMap, a: FrameAllocState) -> bool {
        &&& self.table().wf(m, a)
        &&& regions_ok(self.regions(), self.mappings(m), m, a, self.table().owned())
    }

    /// What others do to the allocator and to memory leaves the address
    /// space as it is, as long as its pages stay owned and the nodes of its
    /// page table keep their contents.
    pub proof fn lemma_wf_frame(
        &self,
        m: MemoryMap,
        a: FrameAllocState,
        m2: MemoryMap,
        a2: FrameAllocState,
    )
        requires
            self.wf(m, a),
            paged(m2),
            forall|p: int| #[trigger]
                self.owned().contains(p) ==> a2.is_allocated(p) && m2.dom().contains(p),
            forall|p: int| #[trigger] self.table().owned().contains(p) ==> m2[p] == m[p],
        ensures
            self.wf(m2, a2),
            self.mappings(m2) == self.mappings(m),
    {
        let r = self.regions();
        assert forall|p: int| self.table().owned().contains(p) implies m2.dom().contains(p)
            && #[trigger] m2[p] == m[p] by {
            assert(self.owned().contains(p));
        }
        self.table().lemma_wf_frame(m, m2);
        assert forall|p: int| self.table().owned().contains(p) implies a2.is_allocated(p) by {
            assert(self.owned().contains(p));
        }
        assert forall|i: int| 0 <= i < r.len() implies frames_held(
            (#[trigger] r[i]).frames,
            m2,
            a2,
            self.table().owned(),
        ) by {
            assert(frames_held(r[i].frames, m, a, self.table().owned()));
            assert forall|k: int| 0 <= k < r[i].frames.len() implies a2.is_allocated(
                #[trigger] r[i].frames[k],
            ) && m2.dom().contains(r[i].frames[k]) by {
                assert(region_frames(r).contains(r[i].frames[k]));
                assert(self.owned().contains(r[i].frames[k]));
            }
        }
    }

    /// A well-formed address space owns its pages: the allocator counts
    /// each as owned, and each exists in memory.
    pub proof fn lemma_owned_allocated(&self, m: MemoryMap, a: FrameAllocState)
        requires
            self.wf(m, a),
        ensures
            forall|p: int| #[trigger]
                self.owned().contains(p) ==> a.is_allocated(p) && m.dom().contains(p),
            forall|p: int|
                region_frames(self.regions()).contains(p) ==> !self.table().owned().contains(p),
    {
        let r = self.regions();
        assert forall|p: int| region_frames(r).contains(p) implies a.is_allocated(p)
            && m.dom().contains(p) && !self.table().owned().contains(p) by {
            let (i, l) = choose|i: int, l: int|
                0 <= i < r.len() && 0 <= l < r[i].frames.len() && #[trigger] r[i].frames[l] == p;
            assert(frames_held(r[i].frames, m, a, self.table().owned()));
        }
    }

    /// An address space that maps nothing.
    pub fn new_bare(allocator: &mut StackFrameAllocator, mem: &mut PhysMemory) -> (ms: Self)
        requires
            old(allocator).wf(),
            old(mem).wf(),
            backed(old(allocator)@, old(mem)@),
            old(allocator)@.free_count() >= 1,
        ensures
            final(allocator).wf(),
            final(mem).wf(),
            backed(final(allocator)@, final(mem)@),
            ms.wf(final(mem)@, final(allocator)@),
            ms.mappings(final(mem)@) == Map::<int, PageTableEntry>::empty(),
            ms.regions() == Seq::<AreaView>::empty(),
            final(allocator)@.free_count() == old(allocator)@.free_count() - 1,
            confined(
                old(allocator)@,
                final(allocator)@,
                old(mem)@,
                final(mem)@,
                Set::<int>::empty(),
            ),
            forall|p: int| ms.owned().contains(p) ==> !old(allocator)@.is_allocated(p),
            forall|p: int|
                old(allocator)@.is_allocated(p) ==> #[trigger] final(allocator)@.is_allocated(p),
    {
        proof {
            allocator.lemma_wf();
        }
        let page_table = PageTable::new(allocator, mem);
        let ms = MemorySet { page_table, areas: Vec::new() };
        proof {
            assert(ms.regions() =~= Seq::<AreaView>::empty());
            assert forall|p: int| ms.owned().contains(p) implies !old(allocator)@.is_allocated(
                p,
            ) by {
                assert(!region_frames(ms.regions()).contains(p));
            }
            assert forall|p: int|
                old(allocator)@.is_allocated(p) implies #[trigger] allocator@.is_allocated(p) by {}
        }
        ms
    }

    /// The token that names the address space to the hardware.
    pub fn token(&self) -> (t: u64)
        requires
            0 <= self.table().root() < PPN_LIMIT,
        ensures
            t == super::pte::SATP_MODE + self.table().root(),
            t % PPN_LIMIT == self.table().root(),
    {
        self.page_table.token()
    }

    /// The entry that page `vpn` is mapped by, or `None` where it is not
    /// mapped.
    pub fn translate(&self, mem: &PhysMemory, vpn: VirtPageNum) -> (r: Option<PageTableEntry>)
        requires
            mem.wf(),
            self.table().readable_in(mem@),
            vpn.valid(),
        ensures
            r == if self.mappings(mem@).dom().contains(vpn.0 as int) {
                Some(self.mappings(mem@)[vpn.0 as int])
            } else {
                None::<PageTableEntry>
            },
    {
        self.page_table.translate(mem, vpn)
    }

    /// Whether a page from `lo` up to `hi` is mapped.
    fn any_mapped(&self, mem: &PhysMemory, lo: VirtPageNum, hi: VirtPageNum) -> (b: bool)
        requires
            mem.wf(),
            self.table().readable_in(mem@),
            lo.0 <= hi.0 <= VPN_LIMIT,
        ensures
            b == exists|v: int| lo.0 <= v < hi.0 && #[trigger] self.mappings(mem@).dom().contains(v),
    {
        let mut v: u64 = lo.0;
        while v < hi.0
            invariant
                mem.wf(),
                self.table().readable_in(mem@),
                lo.0 <= v <= hi.0 <= VPN_LIMIT,
                forall|w: int| lo.0 <= w < v ==> !(#[trigger] self.mappings(mem@).dom().contains(w)),
            decreases hi.0 - v,
        {
            if self.page_table.translate(mem, VirtPageNum(v)).is_some() {
                assert(self.mappings(mem@).dom().contains(v as int));
                return true;
            }
            v += 1;
        }
        false
    }

    /// Whether every page from `lo` up to `hi` is mapped.
    fn all_mapped(&self, mem: &PhysMemory, lo: VirtPageNum, hi: VirtPageNum) -> (b: bool)
        requires
            mem.wf(),
            self.table().readable_in(mem@),
            lo.0 <= hi.0 <= VPN_LIMIT,
        ensures
            b == forall|v: int| lo.0 <= v < hi.0 ==> #[trigger] self.mappings(mem@).dom().contains(v),
    {
        let mut v: u64 = lo.0;
        while v < hi.0
            invariant
                mem.wf(),
                self.table().readable_in(mem@),
                lo.0 <= v <= hi.0 <= VPN_LIMIT,
                forall|w: int| lo.0 <= w < v ==> #[trigger] self.mappings(mem@).dom().contains(w),
            decreases hi.0 - v,
        {
            if self.page_table.translate(mem, VirtPageNum(v)).is_none() {
                assert(!self.mappings(mem@).dom().contains(v as int));
                return false;
            }
            v += 1;
        }
        true
    }

    /// Adds `area` to the address space: its pages are mapped, each framed
    /// page on a fresh, zeroed physical page, and `data`, if given, is copied
    /// into the region from offset `offset` of its first page on.
    #[verifier::rlimit(50)]
    pub fn push(
        &mut self,
        allocator: &mut StackFrameAllocator,
        mem: &mut PhysMemory,
        area: MapArea,
        data: Option<&[u8]>,
        offset: usize,
    )
        requires
            old(allocator).wf(),
            old(mem).wf(),
            backed(old(allocator)@, old(mem)@),
            old(self).wf(old(mem)@, old(allocator)@),
            0 <= area@.start <= area@.end <= VPN_LIMIT,
            area@.frames.len() == 0,
            area@.map_type matches MapType::Direct(base) ==> base.0 + (area@.end - area@.start)
                <= PPN_LIMIT,
            forall|v: int| area@.covers(v) ==> !old(self).mappings(old(mem)@).dom().contains(v),
            old(allocator)@.free_count() >= frames_bound(
                area@.start,
                area@.end,
                area@.map_type == MapType::Framed,
            ),
            data matches Some(d) ==> area@.map_type == MapType::Framed && offset + d@.len() <= 4096
                * (area@.end - area@.start),
        ensures
            final(allocator).wf(),
            final(mem).wf(),
            backed(final(allocator)@, final(mem)@),
            final(self).wf(final(mem)@, final(allocator)@),
            final(self).table().root() == old(self).table().root(),
            final(self).regions().len() == old(self).regions().len() + 1,
            final(self).regions().drop_last() == old(self).regions(),
            final(self).regions().last() == (AreaView {
                frames: final(self).regions().last().frames,
                ..area@
            }),
            final(self).regions().last().shaped(),
            final(self).mappings(final(mem)@) == old(self).mappings(
                old(mem)@,
            ).union_prefer_right(final(self).regions().last().as_map()),
            forall|o: int|
                0 <= o < 4096 * final(self).regions().last().frames.len() ==> #[trigger] frames_byte(
                    final(mem)@,
                    final(self).regions().last().frames,
                    o,
                ) == match data {
                    Some(d) => if offset <= o < offset + d@.len() {
                        d@[o - offset]
                    } else {
                        0u8
                    },
                    None => 0u8,
                },
            final(allocator)@.free_count() >= old(allocator)@.free_count() - frames_bound(
                area@.start,
                area@.end,
                area@.map_type == MapType::Framed,
            ),
            final(allocator)@.free_count() == old(allocator)@.free_count() - final(self).regions().last().frames.len() - (final(self).table().frame_list().len() - old(
                self,
            ).table().frame_list().len()),
            confined(
                old(allocator)@,
                final(allocator)@,
                old(mem)@,
                final(mem)@,
                old(self).table().owned(),
            ),
            forall|p: int|
                final(self).owned().contains(p) ==> old(self).owned().contains(p) || !old(
                    allocator,
                )@.is_allocated(p),
            forall|p: int|
                old(allocator)@.is_allocated(p) ==> #[trigger] final(allocator)@.is_allocated(p),
    {
        let ghost a0 = allocator@;
        let ghost m0 = mem@;
        let ghost r0 = self.regions();
        let ghost maps0 = self.mappings(mem@);
        let ghost table0 = self.table().owned();
        let ghost owned0 = self.owned();
        let ghost view_in = area@;
        let mut area = area;
        proof {
            allocator.lemma_wf();
        }
        area.map(&mut self.page_table, allocator, mem);
        let ghost view = area@;
        let ghost m1 = mem@;
        proof {
            assert forall|o: int| 0 <= o < 4096 * view.frames.len() implies #[trigger] frames_byte(
                m1,
                view.frames,
                o,
            ) == 0u8 by {
                assert(m1[view.frames[o / 4096]] == zero_page());
                let k: u64 = (o % 4096 % 8) as u64;
                assert(((0u64 >> (8 * k)) & 0xff) as u8 == 0u8) by (bit_vector);
            }
        }
        match data {
            Some(d) => {
                area.copy_data(mem, d, offset);
            },
            None => {},
        }
        proof {
            assert forall|p: int| self.table().owned().contains(p) implies #[trigger] mem@[p]
                == m1[p] by {
                if view.frames.contains(p) {
                    let k = choose|k: int| 0 <= k < view.frames.len() && view.frames[k] == p;
                    assert(!self.table().owned().contains(view.frames[k]));
                }
                assert(m1.dom().contains(p));
            }
            self.table().lemma_wf_frame(m1, mem@);
            assert forall|p: int|
                m0.dom().contains(p) && !table0.contains(p) && (a0.is_allocated(p) || p < a0.start
                    || p >= a0.end) implies #[trigger] mem@[p] == m0[p] by {
                assert(m1[p] == m0[p]);
                if view.frames.contains(p) {
                    let k = choose|k: int| 0 <= k < view.frames.len() && view.frames[k] == p;
                    assert(!a0.is_allocated(view.frames[k]));
                    assert(allocator@.is_allocated(view.frames[k]));
                    allocator.lemma_wf();
                }
            }
            assert forall|v: int| view.covers(v) implies !(#[trigger] maps0.dom().contains(v)) by {
                assert(old(self).mappings(old(mem)@) == maps0);
                assert(view_in.covers(v));
            }
            lemma_push_region(
                r0,
                view,
                maps0,
                self.mappings(mem@),
                m0,
                mem@,
                a0,
                allocator@,
                table0,
                self.table().owned(),
            );
        }
        let ghost areas0 = self.areas@;
        self.areas.push(area);
        proof {
            assert(self.regions() =~= r0.push(view));
            assert(self.regions().drop_last() =~= r0);
            assert forall|p: int| self.owned().contains(p) implies owned0.contains(p)
                || !a0.is_allocated(p) by {
                if region_frames(self.regions()).contains(p) {
                    let (i, k) = choose|i: int, k: int|
                        0 <= i < self.regions().len() && 0 <= k < self.regions()[i].frames.len()
                            && #[trigger] self.regions()[i].frames[k] == p;
                    if i < r0.len() {
                        assert(r0[i].frames[k] == p);
                        assert(region_frames(r0).contains(p));
                    } else {
                        assert(view.frames[k] == p);
                    }
                }
            }
        }
    }

    /// Adds a framed region for the pages that the addresses from
    /// `start_va` up to `end_va` touch, none of which may be mapped. Each
    /// page gets a fresh, zeroed physical page at once.
    #[verifier::rlimit(50)]
    pub fn insert_framed_area(
        &mut self,
        allocator: &mut StackFrameAllocator,
        mem: &mut PhysMemory,
        start_va: VirtAddr,
        end_va: VirtAddr,
        permission: MapPermission,
    )
        requires
            old(allocator).wf(),
            old(mem).wf(),
            backed(old(allocator)@, old(mem)@),
            old(self).wf(old(mem)@, old(allocator)@),
            start_va.0 <= end_va.0 <= VA_LIMIT,
            forall|v: int|
                start_va.0 as int / 4096 <= v < (end_va.0 + 4095) / 4096 ==> !old(self).mappings(
                    old(mem)@,
                ).dom().contains(v),
            old(allocator)@.free_count() >= frames_bound(
                start_va.0 as int / 4096,
                (end_va.0 + 4095) / 4096,
                true,
            ),
        ensures
            final(allocator).wf(),
            final(mem).wf(),
            backed(final(allocator)@, final(mem)@),
            final(self).wf(final(mem)@, final(allocator)@),
            final(self).table().root() == old(self).table().root(),
            final(self).regions().len() == old(self).regions().len() + 1,
            final(self).regions().drop_last() == old(self).regions(),
            final(self).regions().last() == (AreaView {
                start: start_va.0 as int / 4096,
                end: (end_va.0 + 4095) / 4096,
                map_type: MapType::Framed,
                perm: permission,
                frames: final(self).regions().last().frames,
            }),
            final(self).regions().last().shaped(),
            final(self).mappings(final(mem)@) == old(self).mappings(
                old(mem)@,
            ).union_prefer_right(final(self).regions().last().as_map()),
            forall|o: int|
                0 <= o < 4096 * final(self).regions().last().frames.len() ==> #[trigger] frames_byte(
                    final(mem)@,
                    final(self).regions().last().frames,
                    o,
                ) == 0u8,
            final(allocator)@.free_count() >= old(allocator)@.free_count() - frames_bound(
                start_va.0 as int / 4096,
                (end_va.0 + 4095) / 4096,
                true,
            ),
            final(allocator)@.free_count() == old(allocator)@.free_count() - ((end_va.0 + 4095)
                / 4096 - start_va.0 as int / 4096) - (final(self).table().frame_list().len() - old(
                self,
            ).table().frame_list().len()),
            confined(
                old(allocator)@,
                final(allocator)@,
                old(mem)@,
                final(mem)@,
                old(self).table().owned(),
            ),
            forall|p: int|
                final(self).owned().contains(p) ==> old(self).owned().contains(p) || !old(
                    allocator,
                )@.is_allocated(p),
            forall|p: int|
                old(allocator)@.is_allocated(p) ==> #[trigger] final(allocator)@.is_allocated(p),
    {
        let area = MapArea::new(start_va, end_va, MapType::Framed, permission);
        self.push(allocator, mem, area, None, 0);
    }

    /// Maps the trampoline, the last page of the address space, to physical
    /// page `ppn`, readable and executable. The address space does not own
    /// that page.
    #[verifier::rlimit(50)]
    pub fn map_trampoline(
        &mut self,
        allocator: &mut StackFrameAllocator,
        mem: &mut PhysMemory,
        ppn: PhysPageNum,
    )
        requires
            old(allocator).wf(),
            old(mem).wf(),
            backed(old(allocator)@, old(mem)@),
            old(self).wf(old(mem)@, old(allocator)@),
            ppn.valid(),
            !old(self).mappings(old(mem)@).dom().contains(TRAMPOLINE as int / 4096),
            old(allocator)@.free_count() >= 2,
        ensures
            final(allocator).wf(),
            final(mem).wf(),
            backed(final(allocator)@, final(mem)@),
            final(self).wf(final(mem)@, final(allocator)@),
            final(self).table().root() == old(self).table().root(),
            final(self).regions() == old(self).regions().push(
                AreaView {
                    start: TRAMPOLINE as int / 4096,
                    end: TRAMPOLINE as int / 4096 + 1,
                    map_type: MapType::Direct(ppn),
                    perm: MapPermission { bits: MAP_R | MAP_X },
                    frames: Seq::<int>::empty(),
                },
            ),
            final(self).mappings(final(mem)@) == old(self).mappings(
                old(mem)@,
            ).union_prefer_right(final(self).regions().last().as_map()),
            final(allocator)@.free_count() >= old(allocator)@.free_count() - 2,
            confined(
                old(allocator)@,
                final(allocator)@,
                old(mem)@,
                final(mem)@,
                old(self).table().owned(),
            ),
            forall|p: int|
                final(self).owned().contains(p) ==> old(self).owned().contains(p) || !old(
                    allocator,
                )@.is_allocated(p),
            forall|p: int|
                old(allocator)@.is_allocated(p) ==> #[trigger] final(allocator)@.is_allocated(p),
    {
        let area = MapArea::new(
            VirtAddr(TRAMPOLINE),
            VirtAddr(TRAMPOLINE + 4096),
            MapType::Direct(ppn),
            MapPermission::from_bits(MAP_R | MAP_X),
        );
        let ghost r0 = self.regions();
        self.push(allocator, mem, area, None, 0);
        proof {
            let last = self.regions().last();
            assert(last.frames =~= Seq::<int>::empty());
            assert(self.regions() =~= self.regions().drop_last().push(last));
        }
    }

    /// Maps fresh memory for the pages that the addresses from `start` up
    /// to `end` touch, as a framed region with `permission`. Where one of
    /// those pages is mapped already, nothing changes and the result is -1;
    /// else it is 0.
    #[verifier::rlimit(50)]
    pub fn mmap(
        &mut self,
        allocator: &mut StackFrameAllocator,
        mem: &mut PhysMemory,
        start: VirtAddr,
        end: VirtAddr,
        permission: MapPermission,
    ) -> (r: isize)
        requires
            old(allocator).wf(),
            old(mem).wf(),
            backed(old(allocator)@, old(mem)@),
            old(self).wf(old(mem)@, old(allocator)@),
            start.0 <= end.0 <= VA_LIMIT,
            old(allocator)@.free_count() >= frames_bound(
                start.0 as int / 4096,
                (end.0 + 4095) / 4096,
                true,
            ),
        ensures
            final(allocator).wf(),
            final(mem).wf(),
            backed(final(allocator)@, final(mem)@),
            final(self).wf(final(mem)@, final(allocator)@),
            final(self).table().root() == old(self).table().root(),
            r == 0 || r == -1,
            r == -1 <==> exists|v: int|
                start.0 as int / 4096 <= v < (end.0 + 4095) / 4096 && #[trigger] old(self).mappings(
                    old(mem)@,
                ).dom().contains(v),
            r == -1 ==> {
                &&& *final(self) == *old(self)
                &&& final(self).regions() == old(self).regions()
                &&& final(mem)@ == old(mem)@
                &&& final(allocator)@ == old(allocator)@
            },
            r == 0 ==> {
                &&& final(self).regions().len() == old(self).regions().len() + 1
                &&& final(self).regions().drop_last() == old(self).regions()
                &&& final(self).regions().last() == (AreaView {
                    start: start.0 as int / 4096,
                    end: (end.0 + 4095) / 4096,
                    map_type: MapType::Framed,
                    perm: permission,
                    frames: final(self).regions().last().frames,
                })
                &&& final(self).regions().last().shaped()
                &&& final(self).mappings(final(mem)@) == old(self).mappings(
                    old(mem)@,
                ).union_prefer_right(final(self).regions().last().as_map())
                &&& forall|o: int|
                    0 <= o < 4096 * final(self).regions().last().frames.len()
                        ==> #[trigger] frames_byte(
                        final(mem)@,
                        final(self).regions().last().frames,
                        o,
                    ) == 0u8
                &&& final(allocator)@.free_count() == old(allocator)@.free_count() - ((end.0
                    + 4095) / 4096 - start.0 as int / 4096) - (final(self).table().frame_list().len() - old(self).table().frame_list().len())
            },
            confined(
                old(allocator)@,
                final(allocator)@,
                old(mem)@,
                final(mem)@,
                old(self).table().owned(),
            ),
            forall|p: int|
                final(self).owned().contains(p) ==> old(self).owned().contains(p) || !old(
                    allocator,
                )@.is_allocated(p),
            forall|p: int|
                old(allocator)@.is_allocated(p) ==> #[trigger] final(allocator)@.is_allocated(p),
    {
        proof {
            self.table().lemma_wf_readable(mem@);
        }
        let lo = start.floor();
        let hi = end.ceil();
        if self.any_mapped(mem, lo, hi) {
            return -1;
        }
        self.insert_framed_area(allocator, mem, start, end, permission);
        0
    }

    /// Ends the mapping of the pages that the addresses from `start` up to
    /// `end` touch, and gives the physical pages that the address space owns
    /// for them back to the allocator. Where one of those pages is not
    /// mapped, nothing changes and the result is -1; else it is 0.
    #[verifier::rlimit(50)]
    pub fn munmap(
        &mut self,
        allocator: &mut StackFrameAllocator,
        mem: &mut PhysMemory,
        start: VirtAddr,
        end: VirtAddr,
    ) -> (r: isize)
        requires
            old(allocator).wf(),
            old(mem).wf(),
            old(self).wf(old(mem)@, old(allocator)@),
            start.0 <= end.0 <= VA_LIMIT,
        ensures
            final(allocator).wf(),
            final(mem).wf(),
            final(mem).spec_base() == old(mem).spec_base(),
            final(mem).spec_end() == old(mem).spec_end(),
            final(self).wf(final(mem)@, final(allocator)@),
            final(self).table().root() == old(self).table().root(),
            r == 0 || r == -1,
            r == -1 <==> exists|v: int|
                start.0 as int / 4096 <= v < (end.0 + 4095) / 4096 && !(#[trigger] old(
                    self,
                ).mappings(old(mem)@).dom().contains(v)),
            r == -1 ==> {
                &&& *final(self) == *old(self)
                &&& final(self).regions() == old(self).regions()
                &&& final(mem)@ == old(mem)@
                &&& final(allocator)@ == old(allocator)@
            },
            r == 0 ==> final(self).mappings(final(mem)@) == old(self).mappings(
                old(mem)@,
            ).remove_keys(page_range(start.0 as int / 4096, (end.0 + 4095) / 4096)),
            r == 0 ==> forall|q: int|
                #[trigger] final(allocator)@.is_allocated(q) == (old(allocator)@.is_allocated(q)
                    && !frames_in_range(
                    old(self).regions(),
                    old(self).regions().len() as int,
                    start.0 as int / 4096,
                    (end.0 + 4095) / 4096,
                ).contains(q)),
            confined(old(allocator)@, final(allocator)@, old(mem)@, final(mem)@, old(self).owned()),
            forall|p: int| final(self).owned().contains(p) ==> old(self).owned().contains(p),
            forall|p: int|
                #[trigger] final(allocator)@.is_allocated(p) ==> old(allocator)@.is_allocated(p),
    {
        proof {
            self.table().lemma_wf_readable(mem@);
            allocator.lemma_wf();
        }
        let lo = start.floor();
        let hi = end.ceil();
        if !self.all_mapped(mem, lo, hi) {
            return -1;
        }
        let ghost a_old = allocator@;
        let ghost m_old = mem@;
        let ghost maps_old = self.mappings(mem@);
        let ghost r_old = self.regions();
        let ghost table_owned = self.table().owned();
        let ghost owned_old = self.owned();
        let n0: usize = self.areas.len();
        let mut i: usize = 0;
        proof {
            assert forall|j: int, k: int|
                0 <= j < r_old.len() && 0 <= k < r_old[j].frames.len() implies owned_old.contains(
                #[trigger] r_old[j].frames[k],
            ) by {
                assert(region_frames(r_old).contains(r_old[j].frames[k]));
            }
        }
        while i < n0
            invariant
                allocator.wf(),
                mem.wf(),
                mem.spec_base() == old(mem).spec_base(),
                mem.spec_end() == old(mem).spec_end(),
                self.table().wf(mem@, allocator@),
                self.table().root() == old(self).table().root(),
                self.table().owned() == table_owned,
                table_owned.subset_of(owned_old),
                regions_fit(self.regions(), self.mappings(mem@), mem@, allocator@, table_owned),
                regions_apart(self.regions()),
                regions_cover(self.regions(), self.mappings(mem@)),
                i <= n0 <= self.areas@.len(),
                lo.0 <= hi.0,
                forall|j: int, v: int|
                    (0 <= j < i || n0 <= j < self.regions().len()) && lo.0 <= v < hi.0 ==> !(
                    #[trigger] self.regions()[j].covers(v)),
                forall|v: int|
                    !(lo.0 <= v < hi.0) ==> #[trigger] agree_at(self.mappings(mem@), maps_old, v),
                allocator@.start == a_old.start,
                allocator@.end == a_old.end,
                forall|q: int|
                    a_old.is_allocated(q) && !owned_old.contains(q) ==> allocator@.is_allocated(q),
                forall|q: int| #[trigger] allocator@.is_allocated(q) ==> a_old.is_allocated(q),
                n0 == r_old.len(),
                forall|j: int| i <= j < n0 ==> #[trigger] self.regions()[j] == r_old[j],
                forall|q: int|
                    #[trigger] allocator@.is_allocated(q) == (a_old.is_allocated(q)
                        && !frames_in_range(r_old, i as int, lo.0 as int, hi.0 as int).contains(q)),
                mem@.dom() == m_old.dom(),
                forall|p: int|
                    m_old.dom().contains(p) && !table_owned.contains(p) ==> #[trigger] mem@[p]
                        == m_old[p],
                forall|j: int, k: int|
                    0 <= j < self.regions().len() && 0 <= k < self.regions()[j].frames.len()
                        ==> owned_old.contains(#[trigger] self.regions()[j].frames[k]),
            decreases n0 - i,
        {
            let ghost r1 = self.regions();
            let ghost maps1 = self.mappings(mem@);
            let ghost m1 = mem@;
            let ghost a1 = allocator@;
            let ghost areas1 = self.areas@;
            proof {
                assert(r1[i as int].shaped() && r1[i as int].mapped_in(maps1) && frames_held(
                    r1[i as int].frames,
                    m1,
                    a1,
                    table_owned,
                ));
            }
            let mut area = self.areas.remove(i);
            assert(area@ == r1[i as int]);
            let right = area.carve(&mut self.page_table, allocator, mem, lo, hi);
            let ghost left_view = area@;
            let ghost right_view = right@;
            self.areas.insert(i, area);
            if right.start().0 < right.end().0 {
                self.areas.push(right);
            }
            proof {
                let r2 = self.regions();
                let maps2 = self.mappings(mem@);
                assert(r2 =~= carved(r1, i as int, lo.0 as int, hi.0 as int));
                lemma_carve_region(
                    r1,
                    i as int,
                    lo.0 as int,
                    hi.0 as int,
                    maps1,
                    maps2,
                    m1,
                    mem@,
                    a1,
                    allocator@,
                    table_owned,
                );
                let mid = r1[i as int].frames_between(lo.0 as int, hi.0 as int);
                let s = clip(lo.0 as int, r1[i as int].start, r1[i as int].end);
                let e = clip(hi.0 as int, r1[i as int].start, r1[i as int].end);
                assert forall|q: int| mid.contains(q) implies owned_old.contains(q) by {
                    let x = choose|x: int| 0 <= x < mid.len() && mid[x] == q;
                    assert(mid[x] == r1[i as int].frames[x + (s - r1[i as int].start)]);
                }
                assert forall|v: int| #[trigger] maps2.dom().contains(v) implies exists|j: int|
                    0 <= j < r2.len() && #[trigger] r2[j].covers(v) by {
                    assert(maps1.dom().contains(v));
                    let j = choose|j: int| 0 <= j < r1.len() && #[trigger] r1[j].covers(v);
                    if j != i {
                        assert(r2[j] == r1[j]);
                        assert(r2[j].covers(v));
                    } else {
                        assert(!(lo.0 <= v < hi.0)) by {
                            if lo.0 <= v < hi.0 {
                                assert(r1[i as int].pages_between(lo.0 as int, hi.0 as int).contains(
                                    v,
                                ));
                            }
                        }
                    }
                }
                assert(r1[i as int] == r_old[i as int]);
                assert forall|j: int| i + 1 <= j < n0 implies #[trigger] r2[j] == r_old[j] by {
                    assert(r2[j] == r1[j]);
                }
                assert forall|q: int| #[trigger]
                    allocator@.is_allocated(q) == (a_old.is_allocated(q) && !frames_in_range(
                        r_old,
                        i + 1,
                        lo.0 as int,
                        hi.0 as int,
                    ).contains(q)) by {
                    let before = frames_in_range(r_old, i as int, lo.0 as int, hi.0 as int);
                    let after = frames_in_range(r_old, i + 1, lo.0 as int, hi.0 as int);
                    assert(a1.is_allocated(q) == (a_old.is_allocated(q) && !before.contains(q)));
                    assert(allocator@.is_allocated(q) == (a1.is_allocated(q) && !mid.contains(q)));
                    if before.contains(q) {
                        let j = choose|j: int|
                            0 <= j < i && j < r_old.len() && #[trigger] r_old[j].frames_between(
                                lo.0 as int,
                                hi.0 as int,
                            ).contains(q);
                        assert(r_old[j].frames_between(lo.0 as int, hi.0 as int).contains(q));
                    }
                    if mid.contains(q) {
                        assert(r_old[i as int].frames_between(lo.0 as int, hi.0 as int).contains(
                            q,
                        ));
                    }
                    if after.contains(q) {
                        let j = choose|j: int|
                            0 <= j < i + 1 && j < r_old.len() && #[trigger] r_old[j].frames_between(
                                lo.0 as int,
                                hi.0 as int,
                            ).contains(q);
                        if j < i {
                            assert(r_old[j].frames_between(lo.0 as int, hi.0 as int).contains(q));
                        }
                    }
                }
                assert forall|j: int, v: int|
                    (0 <= j < i + 1 || n0 <= j < r2.len()) && lo.0 <= v < hi.0 implies !(
                #[trigger] r2[j].covers(v)) by {
                    if j != i && j < r1.len() {
                        assert(r2[j] == r1[j]);
                        assert(!r1[j].covers(v));
                    }
                }
                assert forall|v: int| !(lo.0 <= v < hi.0) implies #[trigger] agree_at(
                    maps2,
                    maps_old,
                    v,
                ) by {
                    assert(agree_at(maps1, maps_old, v));
                }
                assert forall|p: int|
                    m_old.dom().contains(p) && !table_owned.contains(p) implies #[trigger] mem@[p]
                    == m_old[p] by {
                    assert(m1[p] == m_old[p]);
                }
                assert forall|j: int, k: int|
                    0 <= j < r2.len() && 0 <= k < r2[j].frames.len() implies owned_old.contains(
                    #[trigger] r2[j].frames[k],
                ) by {
                    if j != i && j < r1.len() {
                        assert(r2[j] == r1[j]);
                        assert(owned_old.contains(r1[j].frames[k]));
                    } else if j == i {
                        assert(r2[j].frames[k] == r1[i as int].frames[k]);
                    } else {
                        assert(r2[j].frames[k] == r1[i as int].frames[k + (e
                            - r1[i as int].start)]);
                    }
                }
            }
            i += 1;
        }
        proof {
            let maps = self.mappings(mem@);
            let r = self.regions();
            let want = maps_old.remove_keys(page_range(lo.0 as int, hi.0 as int));
            assert forall|v: int| lo.0 <= v < hi.0 implies !maps.dom().contains(v) by {
                if maps.dom().contains(v) {
                    let j = choose|j: int| 0 <= j < r.len() && #[trigger] r[j].covers(v);
                    assert(!r[j].covers(v));
                }
            }
            assert forall|v: int| maps.dom().contains(v) == want.dom().contains(v) by {
                if !(lo.0 <= v < hi.0) {
                    assert(agree_at(maps, maps_old, v));
                }
            }
            assert forall|v: int| maps.dom().contains(v) implies maps[v] == want[v] by {
                assert(agree_at(maps, maps_old, v));
            }
            assert(maps =~= want);
            assert forall|p: int| self.owned().contains(p) implies owned_old.contains(p) by {
                if region_frames(r).contains(p) {
                    let (j, k) = choose|j: int, k: int|
                        0 <= j < r.len() && 0 <= k < r[j].frames.len() && #[trigger] r[j].frames[k]
                            == p;
                    assert(owned_old.contains(r[j].frames[k]));
                }
            }
        }
        0
    }

    /// Gives every physical page of the address space back to the
    /// allocator: the pages of its framed regions and the nodes of its page
    /// table. The address space is gone.
    #[verifier::rlimit(50)]
    pub fn release(self, allocator: &mut StackFrameAllocator)
        requires
            old(allocator).wf(),
            exists|m: MemoryMap| self.wf(m, old(allocator)@),
        ensures
            final(allocator).wf(),
            final(allocator)@.start == old(allocator)@.start,
            final(allocator)@.end == old(allocator)@.end,
            final(allocator)@.free_count() >= old(allocator)@.free_count(),
            forall|q: int|
                #[trigger] final(allocator)@.is_allocated(q) == (old(allocator)@.is_allocated(q)
                    && !self.owned().contains(q)),
    {
        let ghost a0 = allocator@;
        let ghost m = choose|m: MemoryMap| self.wf(m, a0);
        let ghost r = self.regions();
        let ghost table = self.table().owned();
        let MemorySet { page_table, areas } = self;
        let mut areas = areas;
        while areas.len() > 0
            invariant
                allocator.wf(),
                allocator@.start == a0.start,
                allocator@.end == a0.end,
                allocator@.free_count() >= a0.free_count(),
                areas@.len() <= r.len(),
                area_views(areas@) == r.subrange(0, areas@.len() as int),
                regions_fit(r, interp_of(page_table, m), m, a0, table),
                regions_apart(r),
                forall|q: int|
                    #[trigger] allocator@.is_allocated(q) == (a0.is_allocated(q) && !region_frames(
                        r.subrange(areas@.len() as int, r.len() as int),
                    ).contains(q)),
            decreases areas@.len(),
        {
            let ghost n = areas@.len() as int;
            let ghost a1 = allocator@;
            let ghost before = areas@;
            let area = areas.pop().unwrap();
            proof {
                assert(area@ == area_views(before)[n - 1]);
                assert(area@ == r[n - 1]);
                assert(frames_held(r[n - 1].frames, m, a0, table));
                assert(area_views(areas@) =~= r.subrange(0, n - 1));
                assert forall|k: int| 0 <= k < area@.frames.len() implies a1.is_allocated(
                    #[trigger] area@.frames[k],
                ) by {
                    let q = area@.frames[k];
                    assert(a0.is_allocated(q));
                    let later = r.subrange(n, r.len() as int);
                    if region_frames(later).contains(q) {
                        let (i, l) = choose|i: int, l: int|
                            0 <= i < later.len() && 0 <= l < later[i].frames.len()
                                && #[trigger] later[i].frames[l] == q;
                        assert(later[i] == r[i + n]);
                        assert(r[n - 1].frames[k] != r[i + n].frames[l]);
                    }
                }
            }
            area.release(allocator);
            proof {
                let later = r.subrange(n, r.len() as int);
                let later2 = r.subrange(n - 1, r.len() as int);
                assert forall|q: int| #[trigger]
                    allocator@.is_allocated(q) == (a0.is_allocated(q) && !region_frames(
                        later2,
                    ).contains(q)) by {
                    if region_frames(later).contains(q) {
                        let (i, l) = choose|i: int, l: int|
                            0 <= i < later.len() && 0 <= l < later[i].frames.len()
                                && #[trigger] later[i].frames[l] == q;
                        assert(later2[i + 1] == later[i]);
                        assert(later2[i + 1].frames[l] == q);
                    }
                    if r[n - 1].frames.contains(q) {
                        let fr = r[n - 1].frames;
                        let l = choose|l: int| 0 <= l < fr.len() && fr[l] == q;
                        assert(later2[0] == r[n - 1]);
                        assert(later2[0].frames[l] == q);
                    }
                    if region_frames(later2).contains(q) {
                        let (i, l) = choose|i: int, l: int|
                            0 <= i < later2.len() && 0 <= l < later2[i].frames.len()
                                && #[trigger] later2[i].frames[l] == q;
                        if i == 0 {
                            assert(later2[0] == r[n - 1]);
                            assert(r[n - 1].frames[l] == q);
                        } else {
                            assert(later[i - 1] == later2[i]);
                            assert(later[i - 1].frames[l] == q);
                        }
                    }
                }
            }
        }
        proof {
            assert(r.subrange(0, r.len() as int) =~= r);
            assert forall|p: int| page_table.owned().contains(p) implies allocator@.is_allocated(
                p,
            ) by {
                assert(a0.is_allocated(p));
                if region_frames(r).contains(p) {
                    let (i, l) = choose|i: int, l: int|
                        0 <= i < r.len() && 0 <= l < r[i].frames.len() && #[trigger] r[i].frames[l]
                            == p;
                    assert(frames_held(r[i].frames, m, a0, table));
                }
            }
        }
        page_table.release(allocator);
    }
}

/// Every page that `maps` maps is the trampoline page or lies below page
/// `low`.
pub open spec fn mapped_below(maps: Map<int, PageTableEntry>, low: int) -> bool {
    forall|v: int| #[trigger] maps.dom().contains(v) ==> v == TRAMPOLINE as int / 4096 || v < low
}

/// The permissions of a segment with the given flags: access in user mode,
/// and to read, write and execute as the flags say.
pub open spec fn segment_permission(flags: u32) -> MapPermission {
    MapPermission {
        bits: (MAP_U + (if flags & PF_R != 0 {
            MAP_R
        } else {
            0
        }) + (if flags & PF_W != 0 {
            MAP_W
        } else {
            0
        }) + (if flags & PF_X != 0 {
            MAP_X
        } else {
            0
        })) as u8,
    }
}

/// The byte at offset `o` of the memory of segment `ph`, counted from the
/// start of its first page: the segment's bytes from the file where they
/// belong, and zero around them.
pub open spec fn segment_byte(s: Seq<u8>, ph: ProgramHeader, o: int) -> u8 {
    let first = ph.vaddr as int % 4096;
    if first <= o < first + ph.file_size {
        s[ph.offset + (o - first)]
    } else {
        0u8
    }
}

/// The region of segment `ph` on the physical pages `frames`.
pub open spec fn segment_view(ph: ProgramHeader, frames: Seq<int>) -> AreaView {
    AreaView {
        start: ph.start_page(),
        end: ph.end_page(),
        map_type: MapType::Framed,
        perm: segment_permission(ph.flags),
        frames,
    }
}

/// The region of the trampoline page, mapped to physical page `ppn`.
pub open spec fn trampoline_view(ppn: PhysPageNum) -> AreaView {
    AreaView {
        start: TRAMPOLINE as int / 4096,
        end: TRAMPOLINE as int / 4096 + 1,
        map_type: MapType::Direct(ppn),
        perm: MapPermission { bits: MAP_R | MAP_X },
        frames: Seq::<int>::empty(),
    }
}

/// One more than the last page of the last segment, or 0 where there is no
/// segment.
pub open spec fn image_end_page(segs: Seq<ProgramHeader>) -> int {
    if segs.len() == 0 {
        0
    } else {
        segs.last().end_page()
    }
}

/// The number of free physical pages that is enough to map the first `k`
/// segments.
pub open spec fn segments_frames(segs: Seq<ProgramHeader>, k: int) -> int
    decreases k,
{
    if k <= 0 {
        0
    } else {
        segments_frames(segs, k - 1) + frames_bound(
            segs[k - 1].start_page(),
            segs[k - 1].end_page(),
            true,
        )
    }
}

/// The number of free physical pages that is enough to load the image `s`:
/// for the root of the page table, the trampoline, the segments, the user
/// stack and the trap context.
pub open spec fn image_frames(s: Seq<u8>) -> int {
    if loadable(s) {
        let segs = load_segments(s);
        let e = image_end_page(segs);
        3 + segments_frames(segs, segs.len() as int) + frames_bound(e + 1, e + 3, true) + 3
    } else {
        0
    }
}

/// The first regions of `r` after the trampoline are the first `k` segments
/// of the image `s`, and hold their bytes in memory `m`.
pub open spec fn segments_loaded(r: Seq<AreaView>, m: MemoryMap, s: Seq<u8>, k: int) -> bool {
    forall|i: int|
        0 <= i < k ==> {
            &&& #[trigger] r[i + 1] == segment_view(load_segments(s)[i], r[i + 1].frames)
            &&& forall|o: int|
                0 <= o < 4096 * r[i + 1].frames.len() ==> #[trigger] frames_byte(
                    m,
                    r[i + 1].frames,
                    o,
                ) == segment_byte(s, load_segments(s)[i], o)
        }
}

/// The region of the user stack of an image whose segments end at page `e`:
/// two pages above one guard page.
pub open spec fn stack_view(e: int, frames: Seq<int>) -> AreaView {
    AreaView {
        start: e + 1,
        end: e + 3,
        map_type: MapType::Framed,
        perm: MapPermission { bits: MAP_R | MAP_W | MAP_U },
        frames,
    }
}

/// The region of the page that holds the trap context.
pub open spec fn trap_context_view(frames: Seq<int>) -> AreaView {
    AreaView {
        start: TRAP_CONTEXT as int / 4096,
        end: TRAMPOLINE as int / 4096,
        map_type: MapType::Framed,
        perm: MapPermission { bits: MAP_R | MAP_W },
        frames,
    }
}

/// The regions `r` are those of the loaded image `s`: the trampoline, the
/// segments with their bytes, the user stack and the trap context page,
/// the last two filled with zeroes.
pub open spec fn image_loaded(r: Seq<AreaView>, m: MemoryMap, s: Seq<u8>, trampoline: PhysPageNum) -> bool {
    let segs = load_segments(s);
    let n = segs.len() as int;
    &&& r.len() == n + 3
    &&& r[0] == trampoline_view(trampoline)
    &&& segments_loaded(r, m, s, n)
    &&& r[n + 1] == stack_view(image_end_page(segs), r[n + 1].frames)
    &&& r[n + 2] == trap_context_view(r[n + 2].frames)
    &&& forall|o: int|
        0 <= o < 4096 * r[n + 1].frames.len() ==> #[trigger] frames_byte(m, r[n + 1].frames, o)
            == 0u8
    &&& forall|o: int|
        0 <= o < 4096 * r[n + 2].frames.len() ==> #[trigger] frames_byte(m, r[n + 2].frames, o)
            == 0u8
}

/// What is confined to the pages of a page table leaves the bytes of owned
/// pages outside that table as they are.
pub proof fn lemma_bytes_kept(
    frames: Seq<int>,
    m: MemoryMap,
    m2: MemoryMap,
    a: FrameAllocState,
    a2: FrameAllocState,
    table: Set<int>,
)
    requires
        frames_held(frames, m, a, table),
        confined(a, a2, m, m2, table),
    ensures
        forall|o: int|
            0 <= o < 4096 * frames.len() ==> #[trigger] frames_byte(m2, frames, o) == frames_byte(
                m,
                frames,
                o,
            ),
{
    assert forall|o: int| 0 <= o < 4096 * frames.len() implies #[trigger] frames_byte(
        m2,
        frames,
        o,
    ) == frames_byte(m, frames, o) by {
        let p = frames[o / 4096];
        assert(a.is_allocated(p) && !table.contains(p) && m.dom().contains(p));
        assert(m2[p] == m[p]);
    }
}

/// The permissions of a segment with the given flags.
pub fn segment_perm(flags: u32) -> (r: MapPermission)
    ensures
        r == segment_permission(flags),
{
    let mut bits: u8 = MAP_U;
    if flags & PF_R != 0 {
        bits = bits + MAP_R;
    }
    if flags & PF_W != 0 {
        bits = bits + MAP_W;
    }
    if flags & PF_X != 0 {
        bits = bits + MAP_X;
    }
    MapPermission { bits }
}

impl MemorySet {
    /// Adds a region above everything that is mapped but the trampoline.
    #[verifier::rlimit(50)]
    fn push_next(
        &mut self,
        allocator: &mut StackFrameAllocator,
        mem: &mut PhysMemory,
        area: MapArea,
        data: Option<&[u8]>,
        offset: usize,
        Ghost(low): Ghost<int>,
    )
        requires
            old(allocator).wf(),
            old(mem).wf(),
            backed(old(allocator)@, old(mem)@),
            old(self).wf(old(mem)@, old(allocator)@),
            mapped_below(old(self).mappings(old(mem)@), low),
            0 <= low <= area@.start <= area@.end <= TRAMPOLINE as int / 4096,
            area@.frames.len() == 0,
            area@.map_type != MapType::Framed ==> area@.map_type == MapType::Identical,
            old(allocator)@.free_count() >= frames_bound(
                area@.start,
                area@.end,
                area@.map_type == MapType::Framed,
            ),
            data matches Some(d) ==> area@.map_type == MapType::Framed && offset + d@.len() <= 4096
                * (area@.end - area@.start),
            forall|p: int| old(self).owned().contains(p) ==> old(allocator)@.is_allocated(p),
        ensures
            final(allocator).wf(),
            final(mem).wf(),
            backed(final(allocator)@, final(mem)@),
            final(self).wf(final(mem)@, final(allocator)@),
            final(self).table().root() == old(self).table().root(),
            mapped_below(final(self).mappings(final(mem)@), area@.end),
            final(self).regions().len() == old(self).regions().len() + 1,
            final(self).regions().drop_last() == old(self).regions(),
            final(self).regions().last() == (AreaView {
                frames: final(self).regions().last().frames,
                ..area@
            }),
            final(self).regions().last().shaped(),
            forall|o: int|
                0 <= o < 4096 * final(self).regions().last().frames.len() ==> #[trigger] frames_byte(
                    final(mem)@,
                    final(self).regions().last().frames,
                    o,
                ) == match data {
                    Some(d) => if offset <= o < offset + d@.len() {
                        d@[o - offset]
                    } else {
                        0u8
                    },
                    None => 0u8,
                },
            forall|i: int, o: int|
                0 <= i < old(self).regions().len() && 0 <= o < 4096 * old(
                    self,
                ).regions()[i].frames.len() ==> #[trigger] frames_byte(
                    final(mem)@,
                    old(self).regions()[i].frames,
                    o,
                ) == frames_byte(old(mem)@, old(self).regions()[i].frames, o),
            final(allocator)@.free_count() >= old(allocator)@.free_count() - frames_bound(
                area@.start,
                area@.end,
                area@.map_type == MapType::Framed,
            ),
            confined(
                old(allocator)@,
                final(allocator)@,
                old(mem)@,
                final(mem)@,
                old(self).table().owned(),
            ),
            forall|p: int|
                final(self).owned().contains(p) ==> old(self).owned().contains(p) || !old(
                    allocator,
                )@.is_allocated(p),
            forall|p: int|
                old(allocator)@.is_allocated(p) ==> #[trigger] final(allocator)@.is_allocated(p),
            forall|p: int| final(self).owned().contains(p) ==> final(allocator)@.is_allocated(p),
    {
        let ghost maps0 = self.mappings(mem@);
        let ghost r0 = self.regions();
        let ghost m0 = mem@;
        let ghost a0 = allocator@;
        let ghost table0 = self.table().owned();
        let ghost view_in = area@;
        proof {
            assert forall|v: int| view_in.covers(v) implies !maps0.dom().contains(v) by {}
        }
        self.push(allocator, mem, area, data, offset);
        proof {
            let maps1 = self.mappings(mem@);
            let last = self.regions().last();
            assert forall|v: int| #[trigger] maps1.dom().contains(v) implies v == TRAMPOLINE as int
                / 4096 || v < view_in.end by {
                if !last.as_map().dom().contains(v) {
                    assert(maps0.dom().contains(v));
                }
            }
            assert forall|i: int, o: int|
                0 <= i < r0.len() && 0 <= o < 4096 * r0[i].frames.len() implies #[trigger] frames_byte(
                mem@,
                r0[i].frames,
                o,
            ) == frames_byte(m0, r0[i].frames, o) by {
                assert(frames_held(r0[i].frames, m0, a0, table0));
                lemma_bytes_kept(r0[i].frames, m0, mem@, a0, allocator@, table0);
            }
        }
    }

    /// Adds the region of segment `ph` of the image `data`, with the
    /// segment's bytes in it.
    #[verifier::rlimit(50)]
    fn load_segment(
        &mut self,
        allocator: &mut StackFrameAllocator,
        mem: &mut PhysMemory,
        data: &[u8],
        ph: &ProgramHeader,
        Ghost(low): Ghost<int>,
    )
        requires
            old(allocator).wf(),
            old(mem).wf(),
            backed(old(allocator)@, old(mem)@),
            old(self).wf(old(mem)@, old(allocator)@),
            mapped_below(old(self).mappings(old(mem)@), low),
            0 <= low <= ph.start_page(),
            ph.fits(data@.len() as int),
            old(allocator)@.free_count() >= frames_bound(ph.start_page(), ph.end_page(), true),
            forall|p: int| old(self).owned().contains(p) ==> old(allocator)@.is_allocated(p),
        ensures
            final(allocator).wf(),
            final(mem).wf(),
            backed(final(allocator)@, final(mem)@),
            final(self).wf(final(mem)@, final(allocator)@),
            final(self).table().root() == old(self).table().root(),
            mapped_below(final(self).mappings(final(mem)@), ph.end_page()),
            final(self).regions().len() == old(self).regions().len() + 1,
            final(self).regions().drop_last() == old(self).regions(),
            final(self).regions().last() == segment_view(*ph, final(self).regions().last().frames),
            forall|o: int|
                0 <= o < 4096 * final(self).regions().last().frames.len() ==> #[trigger] frames_byte(
                    final(mem)@,
                    final(self).regions().last().frames,
                    o,
                ) == segment_byte(data@, *ph, o),
            forall|i: int, o: int|
                0 <= i < old(self).regions().len() && 0 <= o < 4096 * old(
                    self,
                ).regions()[i].frames.len() ==> #[trigger] frames_byte(
                    final(mem)@,
                    old(self).regions()[i].frames,
                    o,
                ) == frames_byte(old(mem)@, old(self).regions()[i].frames, o),
            final(allocator)@.free_count() >= old(allocator)@.free_count() - frames_bound(
                ph.start_page(),
                ph.end_page(),
                true,
            ),
            confined(
                old(allocator)@,
                final(allocator)@,
                old(mem)@,
                final(mem)@,
                old(self).table().owned(),
            ),
            forall|p: int|
                final(self).owned().contains(p) ==> old(self).owned().contains(p) || !old(
                    allocator,
                )@.is_allocated(p),
            forall|p: int|
                old(allocator)@.is_allocated(p) ==> #[trigger] final(allocator)@.is_allocated(p),
            forall|p: int| final(self).owned().contains(p) ==> final(allocator)@.is_allocated(p),
    {
        let len: usize = data.len();
        let area = MapArea::new(
            VirtAddr(ph.vaddr),
            VirtAddr(ph.vaddr + ph.mem_size),
            MapType::Framed,
            segment_perm(ph.flags),
        );
        let file = slice_subrange(data, ph.offset as usize, (ph.offset + ph.file_size) as usize);
        let first: usize = (ph.vaddr % 4096) as usize;
        self.push_next(allocator, mem, area, Some(file), first, Ghost(low));
    }

    /// Builds the address space of an application from its image: the
    /// trampoline, one region for each loadable segment with the segment's
    /// bytes at their addresses, two pages of user stack above one guard
    /// page, and the page of the trap context below the trampoline. The
    /// result is the address space, the top of the user stack and the
    /// address at which the program starts; it is `None`, and nothing has
    /// changed, exactly where the image cannot be loaded.
    #[verifier::rlimit(50)]
    pub fn from_elf(
        allocator: &mut StackFrameAllocator,
        mem: &mut PhysMemory,
        elf_data: &[u8],
        trampoline: PhysPageNum,
    ) -> (r: Option<(MemorySet, u64, u64)>)
        requires
            old(allocator).wf(),
            old(mem).wf(),
            backed(old(allocator)@, old(mem)@),
            trampoline.valid(),
            old(allocator)@.free_count() >= image_frames(elf_data@),
        ensures
            final(allocator).wf(),
            final(mem).wf(),
            backed(final(allocator)@, final(mem)@),
            r is Some <==> loadable(elf_data@),
            r is None ==> final(allocator)@ == old(allocator)@ && final(mem)@ == old(mem)@,
            r matches Some((ms, user_sp, entry)) ==> {
                &&& ms.wf(final(mem)@, final(allocator)@)
                &&& image_loaded(ms.regions(), final(mem)@, elf_data@, trampoline)
                &&& user_sp == (image_end_page(load_segments(elf_data@)) + 3) * 4096
                &&& entry == entry_point(elf_data@)
                &&& forall|p: int| ms.owned().contains(p) ==> !old(allocator)@.is_allocated(p)
            },
            final(allocator)@.free_count() >= old(allocator)@.free_count() - image_frames(
                elf_data@,
            ),
            confined(
                old(allocator)@,
                final(allocator)@,
                old(mem)@,
                final(mem)@,
                Set::<int>::empty(),
            ),
            forall|p: int|
                old(allocator)@.is_allocated(p) ==> #[trigger] final(allocator)@.is_allocated(p),
    {
        let ghost a_old = allocator@;
        let ghost m_old = mem@;
        proof {
            allocator.lemma_wf();
        }
        let image = match parse_elf(elf_data) {
            Some(image) => image,
            None => {
                return None;
            },
        };
        let ghost segs = load_segments(elf_data@);
        let n: usize = image.segments.len();
        proof {
            lemma_segments_frames_nonneg(segs, n as int);
            let e = image_end_page(segs);
            assert(frames_bound(e + 1, e + 3, true) >= 0);
        }
        let mut ms = MemorySet::new_bare(allocator, mem);
        let ghost a1 = allocator@;
        let ghost m1 = mem@;
        let ghost table1 = ms.table().owned();
        proof {
            allocator.lemma_wf();
            assert(mapped_below(ms.mappings(mem@), 0));
            assert forall|p: int| table1.contains(p) implies !a_old.is_allocated(p) && a_old.start
                <= p < a_old.end by {
                assert(ms.owned().contains(p));
                assert(a1.is_allocated(p));
            }
        }
        ms.map_trampoline(allocator, mem, trampoline);
        let mut k: usize = 0;
        let mut max_end_vpn: u64 = 0;
        proof {
            allocator.lemma_wf();
            super::walk::lemma_confined_then(
                a_old,
                a1,
                allocator@,
                m_old,
                m1,
                mem@,
                Set::<int>::empty(),
                table1,
            );
            assert forall|v: int| #[trigger] ms.mappings(mem@).dom().contains(v) implies v
                == TRAMPOLINE as int / 4096 || v < 0 by {
                assert(ms.regions().last().as_map().dom().contains(v));
            }
            assert forall|p: int| ms.owned().contains(p) implies allocator@.is_allocated(p) by {
                if region_frames(ms.regions()).contains(p) {
                    let (i, l) = choose|i: int, l: int|
                        0 <= i < ms.regions().len() && 0 <= l < ms.regions()[i].frames.len()
                            && #[trigger] ms.regions()[i].frames[l] == p;
                }
            }
        }
        while k < n
            invariant
                allocator.wf(),
                mem.wf(),
                backed(allocator@, mem@),
                ms.wf(mem@, allocator@),
                n == segs.len(),
                image.segments@ == segs,
                segs == load_segments(elf_data@),
                segments_ok(segs, elf_data@.len() as int),
                k <= n,
                max_end_vpn == image_end_page(segs.subrange(0, k as int)),
                mapped_below(ms.mappings(mem@), max_end_vpn as int),
                ms.regions().len() == k + 1,
                ms.regions()[0] == trampoline_view(trampoline),
                segments_loaded(ms.regions(), mem@, elf_data@, k as int),
                allocator@.free_count() >= a_old.free_count() - 3 - segments_frames(
                    segs,
                    k as int,
                ),
                a_old.free_count() >= 3 + segments_frames(segs, n as int) + frames_bound(
                    image_end_page(segs) + 1,
                    image_end_page(segs) + 3,
                    true,
                ) + 3,
                confined(a_old, allocator@, m_old, mem@, Set::<int>::empty()),
                forall|p: int| ms.owned().contains(p) ==> !a_old.is_allocated(p),
                forall|p: int| ms.owned().contains(p) ==> allocator@.is_allocated(p),
                forall|p: int| a_old.is_allocated(p) ==> #[trigger] allocator@.is_allocated(p),
            decreases n - k,
        {
            let ph = image.segments[k];
            let ghost a2 = allocator@;
            let ghost m2 = mem@;
            let ghost r2 = ms.regions();
            let ghost table2 = ms.table().owned();
            proof {
                allocator.lemma_wf();
                assert(ph == segs[k as int]);
                assert(ph.fits(elf_data@.len() as int));
                if k > 0 {
                    assert(segs.subrange(0, k as int).last() == segs[k - 1]);
                    assert(segs[k - 1].end_page() <= segs[k as int].start_page());
                }
                lemma_segments_frames_step(segs, k as int, n as int);
            }
            ms.load_segment(allocator, mem, elf_data, &ph, Ghost(max_end_vpn as int));
            max_end_vpn = (ph.vaddr + ph.mem_size + 4095) / 4096;
            proof {
                allocator.lemma_wf();
                let r3 = ms.regions();
                assert(segs.subrange(0, k + 1).last() == segs[k as int]);
                assert forall|p: int| table2.contains(p) implies a_old.start <= p < a_old.end by {
                    assert(ms.owned().contains(p) || r2.len() >= 0);
                    assert(a2.is_allocated(p));
                }
                super::walk::lemma_confined_then(
                    a_old,
                    a2,
                    allocator@,
                    m_old,
                    m2,
                    mem@,
                    Set::<int>::empty(),
                    table2,
                );
                assert forall|i: int| 0 <= i < k + 1 implies {
                    &&& #[trigger] r3[i + 1] == segment_view(
                        load_segments(elf_data@)[i],
                        r3[i + 1].frames,
                    )
                    &&& forall|o: int|
                        0 <= o < 4096 * r3[i + 1].frames.len() ==> #[trigger] frames_byte(
                            mem@,
                            r3[i + 1].frames,
                            o,
                        ) == segment_byte(elf_data@, load_segments(elf_data@)[i], o)
                } by {
                    if i < k {
                        assert(r3.drop_last()[i + 1] == r3[i + 1]);
                        assert(r2[i + 1] == r3[i + 1]);
                        assert forall|o: int| 0 <= o < 4096 * r3[i + 1].frames.len() implies #[trigger] frames_byte(
                            mem@,
                            r3[i + 1].frames,
                            o,
                        ) == segment_byte(elf_data@, load_segments(elf_data@)[i], o) by {
                            assert(frames_byte(mem@, r2[i + 1].frames, o) == frames_byte(
                                m2,
                                r2[i + 1].frames,
                                o,
                            ));
                        }
                    } else {
                        assert(r3[i + 1] == r3.last());
                    }
                }
                assert(r3[0] == r3.drop_last()[0]);
                assert forall|p: int| ms.owned().contains(p) implies !a_old.is_allocated(p) by {
                    if a_old.is_allocated(p) {
                        assert(a2.is_allocated(p));
                    }
                }
            }
            k += 1;
        }
        let ghost e = image_end_page(segs);
        proof {
            assert(segs.subrange(0, n as int) =~= segs);
            if n > 0 {
                assert(segs[n - 1].fits(elf_data@.len() as int));
            }
        }
        let user_stack_bottom: u64 = max_end_vpn * 4096 + PAGE_SIZE;
        let user_stack_top: u64 = user_stack_bottom + USER_STACK_SIZE;
        let stack = MapArea::new(
            VirtAddr(user_stack_bottom),
            VirtAddr(user_stack_top),
            MapType::Framed,
            MapPermission::from_bits(MAP_R | MAP_W | MAP_U),
        );
        let ghost a3 = allocator@;
        let ghost m3 = mem@;
        let ghost r3 = ms.regions();
        let ghost table3 = ms.table().owned();
        proof {
            allocator.lemma_wf();
        }
        ms.push_next(allocator, mem, stack, None, 0, Ghost(max_end_vpn as int));
        let context = MapArea::new(
            VirtAddr(TRAP_CONTEXT),
            VirtAddr(TRAMPOLINE),
            MapType::Framed,
            MapPermission::from_bits(MAP_R | MAP_W),
        );
        let ghost a4 = allocator@;
        let ghost m4 = mem@;
        let ghost r4 = ms.regions();
        let ghost table4 = ms.table().owned();
        proof {
            allocator.lemma_wf();
            assert forall|p: int| table3.contains(p) implies a_old.start <= p < a_old.end by {
                assert(a3.is_allocated(p));
            }
            super::walk::lemma_confined_then(
                a_old,
                a3,
                a4,
                m_old,
                m3,
                m4,
                Set::<int>::empty(),
                table3,
            );
            assert forall|p: int| ms.owned().contains(p) implies !a_old.is_allocated(p) by {
                if a_old.is_allocated(p) {
                    assert(a3.is_allocated(p));
                }
            }
        }
        ms.push_next(allocator, mem, context, None, 0, Ghost(e + 3));
        proof {
            allocator.lemma_wf();
            let r5 = ms.regions();
            assert forall|p: int| table4.contains(p) implies a_old.start <= p < a_old.end by {
                assert(a4.is_allocated(p));
            }
            super::walk::lemma_confined_then(
                a_old,
                a4,
                allocator@,
                m_old,
                m4,
                mem@,
                Set::<int>::empty(),
                table4,
            );
            assert forall|p: int| ms.owned().contains(p) implies !a_old.is_allocated(p) by {
                if a_old.is_allocated(p) {
                    assert(a4.is_allocated(p));
                }
            }
            assert(r5.drop_last() == r4);
            assert(r4.drop_last() == r3);
            assert forall|i: int| 0 <= i < n + 2 implies r5[i] == r4[i] by {
                assert(r5.drop_last()[i] == r5[i]);
            }
            assert forall|i: int| 0 <= i < n + 1 implies r4[i] == r3[i] by {
                assert(r4.drop_last()[i] == r4[i]);
            }
            assert(r5[n + 2] == r5.last());
            assert(r4[n + 1] == r4.last());
            assert forall|i: int| 0 <= i < n implies {
                &&& #[trigger] r5[i + 1] == segment_view(
                    load_segments(elf_data@)[i],
                    r5[i + 1].frames,
                )
                &&& forall|o: int|
                    0 <= o < 4096 * r5[i + 1].frames.len() ==> #[trigger] frames_byte(
                        mem@,
                        r5[i + 1].frames,
                        o,
                    ) == segment_byte(elf_data@, load_segments(elf_data@)[i], o)
            } by {
                assert(r5[i + 1] == r3[i + 1]);
                assert forall|o: int| 0 <= o < 4096 * r5[i + 1].frames.len() implies #[trigger] frames_byte(
                    mem@,
                    r5[i + 1].frames,
                    o,
                ) == segment_byte(elf_data@, load_segments(elf_data@)[i], o) by {
                    assert(frames_byte(m4, r3[i + 1].frames, o) == frames_byte(
                        m3,
                        r3[i + 1].frames,
                        o,
                    ));
                    assert(frames_byte(mem@, r4[i + 1].frames, o) == frames_byte(
                        m4,
                        r4[i + 1].frames,
                        o,
                    ));
                }
            }
            assert forall|o: int| 0 <= o < 4096 * r5[n + 1].frames.len() implies #[trigger] frames_byte(
                mem@,
                r5[n + 1].frames,
                o,
            ) == 0u8 by {
                assert(frames_byte(mem@, r4[n + 1].frames, o) == frames_byte(
                    m4,
                    r4[n + 1].frames,
                    o,
                ));
            }
        }
        Some((ms, user_stack_top, image.entry))
    }
}

/// Where the sections of the kernel image and the memory behind it lie.
/// Every address is the first of a page, and the addresses ascend in the
/// order of the fields.
#[derive(Clone, Copy, Debug)]
pub struct KernelLayout {
    pub stext: u64,
    pub etext: u64,
    pub srodata: u64,
    pub erodata: u64,
    pub sdata: u64,
    pub edata: u64,
    pub sbss_with_stack: u64,
    pub ebss: u64,
    pub ekernel: u64,
    pub memory_end: u64,
}

impl KernelLayout {
    /// Every address is the first of a page, the addresses ascend, and the
    /// memory ends below the trap context page.
    pub open spec fn ok(self) -> bool {
        &&& self.stext % 4096 == 0 && self.etext % 4096 == 0
        &&& self.srodata % 4096 == 0 && self.erodata % 4096 == 0
        &&& self.sdata % 4096 == 0 && self.edata % 4096 == 0
        &&& self.sbss_with_stack % 4096 == 0 && self.ebss % 4096 == 0
        &&& self.ekernel % 4096 == 0 && self.memory_end % 4096 == 0
        &&& self.stext <= self.etext <= self.srodata <= self.erodata <= self.sdata <= self.edata
        &&& self.edata <= self.sbss_with_stack <= self.ebss <= self.ekernel <= self.memory_end
        &&& self.memory_end <= TRAP_CONTEXT
    }

    /// Whether the layout is as [`KernelLayout::ok`] asks.
    pub fn check(&self) -> (b: bool)
        ensures
            b == self.ok(),
    {
        self.stext % 4096 == 0 && self.etext % 4096 == 0 && self.srodata % 4096 == 0
            && self.erodata % 4096 == 0 && self.sdata % 4096 == 0 && self.edata % 4096 == 0
            && self.sbss_with_stack % 4096 == 0 && self.ebss % 4096 == 0 && self.ekernel % 4096
            == 0 && self.memory_end % 4096 == 0 && self.stext <= self.etext && self.etext
            <= self.srodata && self.srodata <= self.erodata && self.erodata <= self.sdata
            && self.sdata <= self.edata && self.edata <= self.sbss_with_stack
            && self.sbss_with_stack <= self.ebss && self.ebss <= self.ekernel && self.ekernel
            <= self.memory_end && self.memory_end <= TRAP_CONTEXT
    }

    /// The number of free physical pages that is enough to build the
    /// kernel's address space.
    pub open spec fn frames(self) -> int {
        3 + identical_bound(self.stext, self.etext) + identical_bound(self.srodata, self.erodata)
            + identical_bound(self.sdata, self.edata) + identical_bound(
            self.sbss_with_stack,
            self.ebss,
        ) + identical_bound(self.ekernel, self.memory_end)
    }

    /// The regions of the kernel's address space: the trampoline, and the
    /// text, the read-only data, the data, the zeroed data and the free
    /// memory, each mapped to itself.
    pub open spec fn regions(self, trampoline: PhysPageNum) -> Seq<AreaView> {
        seq![
            trampoline_view(trampoline),
            identical_view(self.stext, self.etext, MAP_R | MAP_X),
            identical_view(self.srodata, self.erodata, MAP_R),
            identical_view(self.sdata, self.edata, MAP_R | MAP_W),
            identical_view(self.sbss_with_stack, self.ebss, MAP_R | MAP_W),
            identical_view(self.ekernel, self.memory_end, MAP_R | MAP_W),
        ]
    }
}

/// The number of free physical pages that is enough to map the memory from
/// address `start` up to address `end` to itself.
pub open spec fn identical_bound(start: u64, end: u64) -> int {
    frames_bound(start as int / 4096, (end + 4095) / 4096, false)
}

/// The region that maps the memory from address `start` up to address `end`
/// to itself.
pub open spec fn identical_view(start: u64, end: u64, bits: u8) -> AreaView {
    AreaView {
        start: start as int / 4096,
        end: (end + 4095) / 4096,
        map_type: MapType::Identical,
        perm: MapPermission { bits },
        frames: Seq::<int>::empty(),
    }
}

impl MemorySet {
    /// Adds a region that maps the memory from address `start` up to address
    /// `end` to itself, above everything that is mapped but the trampoline.
    #[verifier::rlimit(50)]
    fn push_identical(
        &mut self,
        allocator: &mut StackFrameAllocator,
        mem: &mut PhysMemory,
        start: u64,
        end: u64,
        bits: u8,
        Ghost(low): Ghost<int>,
        Ghost(a_old): Ghost<FrameAllocState>,
        Ghost(m_old): Ghost<MemoryMap>,
    )
        requires
            old(allocator).wf(),
            old(mem).wf(),
            backed(old(allocator)@, old(mem)@),
            old(self).wf(old(mem)@, old(allocator)@),
            mapped_below(old(self).mappings(old(mem)@), low),
            0 <= low <= start as int / 4096,
            start <= end <= TRAP_CONTEXT,
            old(allocator)@.free_count() >= identical_bound(start, end),
            forall|p: int| old(self).owned().contains(p) ==> old(allocator)@.is_allocated(p),
            confined(a_old, old(allocator)@, m_old, old(mem)@, Set::<int>::empty()),
            forall|p: int| old(self).owned().contains(p) ==> !a_old.is_allocated(p),
            forall|p: int| a_old.is_allocated(p) ==> #[trigger] old(allocator)@.is_allocated(p),
        ensures
            confined(a_old, final(allocator)@, m_old, final(mem)@, Set::<int>::empty()),
            forall|p: int| final(self).owned().contains(p) ==> !a_old.is_allocated(p),
            forall|p: int| a_old.is_allocated(p) ==> #[trigger] final(allocator)@.is_allocated(p),
            final(allocator).wf(),
            final(mem).wf(),
            backed(final(allocator)@, final(mem)@),
            final(self).wf(final(mem)@, final(allocator)@),
            final(self).table().root() == old(self).table().root(),
            mapped_below(final(self).mappings(final(mem)@), (end + 4095) / 4096),
            final(self).regions() == old(self).regions().push(identical_view(start, end, bits)),
            final(allocator)@.free_count() >= old(allocator)@.free_count() - identical_bound(
                start,
                end,
            ),
            confined(
                old(allocator)@,
                final(allocator)@,
                old(mem)@,
                final(mem)@,
                old(self).table().owned(),
            ),
            forall|p: int|
                final(self).owned().contains(p) ==> old(self).owned().contains(p) || !old(
                    allocator,
                )@.is_allocated(p),
            forall|p: int|
                old(allocator)@.is_allocated(p) ==> #[trigger] final(allocator)@.is_allocated(p),
            forall|p: int| final(self).owned().contains(p) ==> final(allocator)@.is_allocated(p),
    {
        let area = MapArea::new(
            VirtAddr(start),
            VirtAddr(end),
            MapType::Identical,
            MapPermission::from_bits(bits),
        );
        let ghost a2 = allocator@;
        let ghost m2 = mem@;
        let ghost table2 = self.table().owned();
        proof {
            allocator.lemma_wf();
        }
        self.push_next(allocator, mem, area, None, 0, Ghost(low));
        proof {
            let last = self.regions().last();
            assert(last.frames =~= Seq::<int>::empty());
            assert(self.regions() =~= self.regions().drop_last().push(last));
            assert forall|p: int| table2.contains(p) implies a_old.start <= p < a_old.end && (
            Set::<int>::empty().contains(p) || !a_old.is_allocated(p)) by {
                assert(old(self).owned().contains(p));
                assert(a2.is_allocated(p));
            }
            super::walk::lemma_confined_then(
                a_old,
                a2,
                allocator@,
                m_old,
                m2,
                mem@,
                Set::<int>::empty(),
                table2,
            );
            assert forall|p: int| self.owned().contains(p) implies !a_old.is_allocated(p) by {
                if a_old.is_allocated(p) {
                    assert(a2.is_allocated(p));
                }
            }
        }
    }

    /// Builds the kernel's own address space: the trampoline, and the
    /// sections of the kernel image and the free memory behind it, each
    /// mapped to itself, so that the kernel reaches every physical address
    /// at that same address.
    #[verifier::rlimit(50)]
    pub fn new_kernel(
        allocator: &mut StackFrameAllocator,
        mem: &mut PhysMemory,
        layout: &KernelLayout,
        trampoline: PhysPageNum,
    ) -> (ms: MemorySet)
        requires
            old(allocator).wf(),
            old(mem).wf(),
            backed(old(allocator)@, old(mem)@),
            layout.ok(),
            trampoline.valid(),
            old(allocator)@.free_count() >= layout.frames(),
        ensures
            final(allocator).wf(),
            final(mem).wf(),
            backed(final(allocator)@, final(mem)@),
            ms.wf(final(mem)@, final(allocator)@),
            ms.regions() == layout.regions(trampoline),
            mapped_below(ms.mappings(final(mem)@), layout.memory_end as int / 4096),
            final(allocator)@.free_count() >= old(allocator)@.free_count() - layout.frames(),
            confined(
                old(allocator)@,
                final(allocator)@,
                old(mem)@,
                final(mem)@,
                Set::<int>::empty(),
            ),
            forall|p: int| ms.owned().contains(p) ==> !old(allocator)@.is_allocated(p),
            forall|p: int| ms.owned().contains(p) ==> final(allocator)@.is_allocated(p),
            forall|p: int|
                old(allocator)@.is_allocated(p) ==> #[trigger] final(allocator)@.is_allocated(p),
    {
        let ghost a_old = allocator@;
        let ghost m_old = mem@;
        proof {
            allocator.lemma_wf();
        }
        let mut ms = MemorySet::new_bare(allocator, mem);
        let ghost a1 = allocator@;
        let ghost m1 = mem@;
        let ghost table1 = ms.table().owned();
        proof {
            allocator.lemma_wf();
            assert(mapped_below(ms.mappings(mem@), 0));
            assert forall|p: int| table1.contains(p) implies !a_old.is_allocated(p) && a_old.start
                <= p < a_old.end by {
                assert(ms.owned().contains(p));
                assert(a1.is_allocated(p));
            }
        }
        ms.map_trampoline(allocator, mem, trampoline);
        proof {
            allocator.lemma_wf();
            super::walk::lemma_confined_then(
                a_old,
                a1,
                allocator@,
                m_old,
                m1,
                mem@,
                Set::<int>::empty(),
                table1,
            );
            assert forall|v: int| #[trigger] ms.mappings(mem@).dom().contains(v) implies v
                == TRAMPOLINE as int / 4096 || v < 0 by {
                assert(ms.regions().last().as_map().dom().contains(v));
            }
            assert forall|p: int| ms.owned().contains(p) implies allocator@.is_allocated(p) by {
                if region_frames(ms.regions()).contains(p) {
                    let (i, l) = choose|i: int, l: int|
                        0 <= i < ms.regions().len() && 0 <= l < ms.regions()[i].frames.len()
                            && #[trigger] ms.regions()[i].frames[l] == p;
                }
            }
            assert(ms.regions() =~= seq![trampoline_view(trampoline)]);
            assert forall|p: int| ms.owned().contains(p) implies !a_old.is_allocated(p) by {
                if a_old.is_allocated(p) {
                    assert(a1.is_allocated(p));
                }
            }
            assert(identical_bound(layout.stext, layout.etext) >= 0);
            assert(identical_bound(layout.srodata, layout.erodata) >= 0);
            assert(identical_bound(layout.sdata, layout.edata) >= 0);
            assert(identical_bound(layout.sbss_with_stack, layout.ebss) >= 0);
            assert(identical_bound(layout.ekernel, layout.memory_end) >= 0);
        }
        ms.push_identical(
            allocator,
            mem,
            layout.stext,
            layout.etext,
            MAP_R | MAP_X,
            Ghost(0),
            Ghost(a_old),
            Ghost(m_old),
        );
        ms.push_identical(
            allocator,
            mem,
            layout.srodata,
            layout.erodata,
            MAP_R,
            Ghost((layout.etext + 4095) / 4096),
            Ghost(a_old),
            Ghost(m_old),
        );
        ms.push_identical(
            allocator,
            mem,
            layout.sdata,
            layout.edata,
            MAP_R | MAP_W,
            Ghost((layout.erodata + 4095) / 4096),
            Ghost(a_old),
            Ghost(m_old),
        );
        ms.push_identical(
            allocator,
            mem,
            layout.sbss_with_stack,
            layout.ebss,
            MAP_R | MAP_W,
            Ghost((layout.edata + 4095) / 4096),
            Ghost(a_old),
            Ghost(m_old),
        );
        ms.push_identical(
            allocator,
            mem,
            layout.ekernel,
            layout.memory_end,
            MAP_R | MAP_W,
            Ghost((layout.ebss + 4095) / 4096),
            Ghost(a_old),
            Ghost(m_old),
        );
        proof {
            assert(ms.regions() =~= layout.regions(trampoline));
        }
        ms
    }
}

/// The number of free physical pages that is enough to load the image
/// `data`; 0 where the image cannot be loaded.
#[verifier::rlimit(50)]
pub fn image_frames_needed(data: &[u8]) -> (n: u64)
    ensures
        n == image_frames(data@),
{
    let image = match parse_elf(data) {
        Some(image) => image,
        None => {
            return 0;
        },
    };
    let ghost segs = load_segments(data@);
    let count: usize = image.segments.len();
    let mut sum: u64 = 0;
    let mut end_page: u64 = 0;
    let mut k: usize = 0;
    while k < count
        invariant
            k <= count,
            count == segs.len(),
            image.segments@ == segs,
            segments_ok(segs, data@.len() as int),
            sum == segments_frames(segs, k as int),
            sum <= k * 0x2000_0000,
            count <= 0xffff,
            end_page == image_end_page(segs.subrange(0, k as int)),
            end_page * 4096 <= TRAP_CONTEXT - 3 * 4096,
        decreases count - k,
    {
        let ph = image.segments[k];
        proof {
            assert(ph == segs[k as int]);
            assert(ph.fits(data@.len() as int));
            assert(segs.subrange(0, k + 1).last() == segs[k as int]);
            lemma_segments_frames_step(segs, k as int, count as int);
        }
        let first: u64 = ph.vaddr / 4096;
        let last: u64 = (ph.vaddr + ph.mem_size + 4095) / 4096;
        let ghost before = sum;
        sum = sum + super::area::frames_needed(VirtPageNum(first), VirtPageNum(last), true);
        end_page = last;
        k += 1;
        proof {
            assert(sum <= k * 0x2000_0000) by (nonlinear_arith)
                requires
                    sum <= before + 0x2000_0000,
                    before <= (k - 1) * 0x2000_0000,
            ;
        }
    }
    proof {
        assert(segs.subrange(0, count as int) =~= segs);
    }
    3 + sum + super::area::frames_needed(VirtPageNum(end_page + 1), VirtPageNum(end_page + 3), true)
        + 3
}

impl KernelLayout {
    /// The number of free physical pages that is enough to build the
    /// kernel's address space.
    pub fn frames_needed(&self) -> (n: u64)
        requires
            self.ok(),
        ensures
            n == self.frames(),
    {
        3 + identical_needed(self.stext, self.etext) + identical_needed(self.srodata, self.erodata)
            + identical_needed(self.sdata, self.edata) + identical_needed(
            self.sbss_with_stack,
            self.ebss,
        ) + identical_needed(self.ekernel, self.memory_end)
    }
}

/// The number of free physical pages that is enough to map the memory from
/// address `start` up to address `end` to itself.
fn identical_needed(start: u64, end: u64) -> (n: u64)
    requires
        start <= end <= TRAP_CONTEXT,
    ensures
        n == identical_bound(start, end),
        n <= 0x2000_0000,
{
    super::area::frames_needed(VirtAddr(start).floor(), VirtAddr(end).ceil(), false)
}

/// The pages that are enough for the first `k + 1` segments are those for
/// the first `k` and those for segment `k`, and no more than those for all.
proof fn lemma_segments_frames_step(segs: Seq<ProgramHeader>, k: int, n: int)
    requires
        0 <= k < n,
    ensures
        segments_frames(segs, k + 1) == segments_frames(segs, k) + frames_bound(
            segs[k].start_page(),
            segs[k].end_page(),
            true,
        ),
        segments_frames(segs, k + 1) <= segments_frames(segs, n),
        segments_frames(segs, k) >= 0,
    decreases n - k,
{
    lemma_segments_frames_nonneg(segs, k);
    if k + 1 < n {
        lemma_segments_frames_step(segs, k + 1, n);
    }
}

proof fn lemma_segments_frames_nonneg(segs: Seq<ProgramHeader>, k: int)
    ensures
        segments_frames(segs, k) >= 0,
    decreases k,
{
    if k > 0 {
        lemma_segments_frames_nonneg(segs, k - 1);
    }
}

/// What the page table `pt` maps in memory `m`.
pub open spec fn interp_of(pt: PageTable, m: MemoryMap) -> Map<int, PageTableEntry> {
    pt.mappings(m)
}

} // verus!
