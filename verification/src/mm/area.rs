//! Mapped regions: contiguous runs of virtual pages with one permission and
//! one way of backing them.

use super::address::{PhysPageNum, VirtAddr, VirtPageNum, PPN_LIMIT, VPN_LIMIT};
use super::frame_allocator::{
    backed, frame_alloc, frame_dealloc, lemma_dealloc, FrameAllocState, FrameTracker,
    StackFrameAllocator,
};
use super::memory::{page_byte, zero_page, MemoryMap, PhysMemory};
use super::page_table::{frame_numbers, PageTable};
use super::pte::{PTEFlags, PageTableEntry, PTE_V};
use super::walk::{
    confined, index0, index1, l1_node, l2_node, lemma_confined_then, lemma_confined_wider,
    lemma_tree_frame, mapping, missing_nodes,
};
use vstd::prelude::*;

verus! {

/// Permission of a region: its pages may be read.
pub const MAP_R: u8 = 2;

/// Permission of a region: its pages may be written.
pub const MAP_W: u8 = 4;

/// Permission of a region: its pages may be executed.
pub const MAP_X: u8 = 8;

/// Permission of a region: its pages are accessible in user mode.
pub const MAP_U: u8 = 16;

/// The permissions of a region, with the bits of the page table flags of
/// the same meaning.
#[derive(Clone, Copy, Debug, PartialEq, Eq, Structural)]
pub struct MapPermission {
    pub bits: u8,
}

impl MapPermission {
    /// The permissions with the given bits.
    pub fn from_bits(bits: u8) -> (r: Self)
        ensures
            r.bits == bits,
    {
        MapPermission { bits }
    }

    /// Every permission among `mask` is given.
    pub open spec fn spec_contains(self, mask: u8) -> bool {
        self.bits & mask == mask
    }

    /// Whether every permission among `mask` is given.
    #[verifier::when_used_as_spec(spec_contains)]
    pub fn contains(self, mask: u8) -> (b: bool)
        ensures
            b == self.spec_contains(mask),
    {
        self.bits & mask == mask
    }
}

/// How the pages of a region are backed.
#[derive(Clone, Copy, Debug, PartialEq, Eq, Structural)]
pub enum MapType {
    /// Each virtual page is the physical page of the same number.
    Identical,
    /// Each virtual page has a physical page of its own, which the region
    /// owns.
    Framed,
    /// The virtual pages are the physical pages from the given one on,
    /// which the region does not own.
    Direct(PhysPageNum),
}

/// A region as mathematics.
pub struct AreaView {
    /// The first virtual page.
    pub start: int,
    /// One more than the last virtual page.
    pub end: int,
    pub map_type: MapType,
    pub perm: MapPermission,
    /// The numbers of the physical pages that the region owns, in the order
    /// of the virtual pages that they back.
    pub frames: Seq<int>,
}

impl AreaView {
    /// Page `v` belongs to the region.
    pub open spec fn covers(self, v: int) -> bool {
        self.start <= v < self.end
    }

    /// The physical page that backs page `v` of the region.
    pub open spec fn target(self, v: int) -> int {
        match self.map_type {
            MapType::Identical => v,
            MapType::Framed => self.frames[v - self.start],
            MapType::Direct(base) => base.0 + (v - self.start),
        }
    }

    /// The page table entry of page `v` of the region.
    pub open spec fn entry(self, v: int) -> PageTableEntry {
        PageTableEntry::spec_new(
            self.target(v),
            PTEFlags { bits: self.perm.bits }.spec_with(PTE_V),
        )
    }

    /// The range is a range of virtual pages, and the region owns one
    /// physical page for each virtual page where its pages are framed, and
    /// none otherwise.
    pub open spec fn shaped(self) -> bool {
        &&& 0 <= self.start <= self.end <= VPN_LIMIT
        &&& match self.map_type {
            MapType::Identical => self.frames.len() == 0,
            MapType::Framed => self.frames.len() == self.end - self.start,
            MapType::Direct(base) => self.frames.len() == 0 && base.0 + (self.end - self.start)
                <= PPN_LIMIT,
        }
    }

    /// The pages of the region with their page table entries.
    pub open spec fn as_map(self) -> Map<int, PageTableEntry> {
        Map::new(|v: int| self.covers(v), |v: int| self.entry(v))
    }

    /// The pages of the region below `upto` are mapped in `maps`, each by
    /// its entry.
    pub open spec fn mapped_upto(self, upto: int, maps: Map<int, PageTableEntry>) -> bool {
        forall|v: int|
            self.start <= v < upto ==> #[trigger] maps.dom().contains(v) && maps[v] == self.entry(
                v,
            )
    }

    /// The region is mapped in `maps`.
    pub open spec fn mapped_in(self, maps: Map<int, PageTableEntry>) -> bool {
        self.mapped_upto(self.end, maps)
    }
}

/// The pages `frames` are owned: no page occurs twice, the allocator counts
/// each as owned, each exists in memory, and none is a page of the table
/// whose pages are `table`.
pub open spec fn frames_held(
    frames: Seq<int>,
    m: MemoryMap,
    a: FrameAllocState,
    table: Set<int>,
) -> bool {
    &&& frames.no_duplicates()
    &&& forall|k: int|
        0 <= k < frames.len() ==> {
            &&& a.is_allocated(#[trigger] frames[k])
            &&& m.dom().contains(frames[k])
            &&& !table.contains(frames[k])
            &&& 0 <= frames[k] < PPN_LIMIT
        }
}

/// The number of physical pages that a region of the given kind takes for
/// each of its pages: one where it is framed, none otherwise.
pub open spec fn own_frame(map_type: MapType) -> int {
    if map_type == MapType::Framed {
        1
    } else {
        0
    }
}

/// The number of free physical pages that is enough to map the pages from
/// `start` up to `end`: one for each page where the region is framed, and
/// one for each node of the page table that the range can touch below the
/// root.
pub open spec fn frames_bound(start: int, end: int, framed: bool) -> int {
    if start >= end {
        0
    } else {
        (if framed {
            end - start
        } else {
            0
        }) + ((end - 1) / 512 - start / 512 + 1) + ((end - 1) / 0x40000 - start / 0x40000 + 1)
    }
}

/// The part of [`frames_bound`] that is left when the pages below `vpn` are
/// mapped.
#[verifier::opaque]
pub open spec fn frames_left(start: int, vpn: int, end: int, framed: bool) -> int {
    if vpn >= end {
        0
    } else if vpn <= start {
        frames_bound(start, end, framed)
    } else {
        (if framed {
            end - vpn
        } else {
            0
        }) + ((end - 1) / 512 - (vpn - 1) / 512) + ((end - 1) / 0x40000 - (vpn - 1) / 0x40000)
    }
}

/// The number of free physical pages that is enough to map the pages from
/// `start` up to `end`.
pub fn frames_needed(start: VirtPageNum, end: VirtPageNum, framed: bool) -> (n: u64)
    requires
        end.0 <= VPN_LIMIT,
    ensures
        n == frames_bound(start.0 as int, end.0 as int, framed),
        n <= 0x2000_0000,
{
    if start.0 >= end.0 {
        0
    } else {
        let pages: u64 = if framed {
            end.0 - start.0
        } else {
            0
        };
        pages + ((end.0 - 1) / 512 - start.0 / 512 + 1) + ((end.0 - 1) / 0x40000 - start.0
            / 0x40000 + 1)
    }
}

/// Where the page before `vpn` is mapped, the nodes on the way to it are
/// on the way to `vpn` as far as the two pages lie in the same block.
proof fn lemma_next_page_nodes(m: MemoryMap, root: int, vpn: int)
    requires
        mapping(m, root, vpn - 1) is Some,
    ensures
        vpn / 0x40000 == (vpn - 1) / 0x40000 ==> missing_nodes(m, root, vpn) <= 1,
        vpn / 512 == (vpn - 1) / 512 ==> missing_nodes(m, root, vpn) == 0,
{
    if vpn / 0x40000 == (vpn - 1) / 0x40000 {
        assert(index0(vpn) == index0(vpn - 1));
        assert(l1_node(m, root, vpn) == l1_node(m, root, vpn - 1));
    }
    if vpn / 512 == (vpn - 1) / 512 {
        assert(vpn / 0x40000 == (vpn - 1) / 0x40000);
        assert(index0(vpn) == index0(vpn - 1));
        assert(index1(vpn) == index1(vpn - 1));
        assert(l1_node(m, root, vpn) == l1_node(m, root, vpn - 1));
        assert(l2_node(m, root, vpn) == l2_node(m, root, vpn - 1));
    }
}

/// Mapping page `vpn` takes no more of what is left of [`frames_bound`]
/// than the part that is there for it: a page where the region is framed,
/// and a node for each block of pages that begins with `vpn`.
proof fn lemma_frames_left_step(start: int, vpn: int, end: int, framed: bool, missing: int)
    requires
        0 <= start <= vpn < end,
        0 <= missing <= 2,
        vpn > start && vpn / 0x40000 == (vpn - 1) / 0x40000 ==> missing <= 1,
        vpn > start && vpn / 512 == (vpn - 1) / 512 ==> missing == 0,
    ensures
        frames_left(start, vpn, end, framed) - (if framed {
            1int
        } else {
            0int
        }) - missing >= frames_left(start, vpn + 1, end, framed),
        frames_left(start, vpn + 1, end, framed) >= 0,
        frames_left(start, start, end, framed) == frames_bound(start, end, framed),
        frames_left(start, end, end, framed) == 0,
{
    reveal(frames_left);
}

/// `maps` maps page `v` as `before` did, or not at all if `before` did not.
pub open spec fn agree_at(
    maps: Map<int, PageTableEntry>,
    before: Map<int, PageTableEntry>,
    v: int,
) -> bool {
    &&& maps.dom().contains(v) == before.dom().contains(v)
    &&& before.dom().contains(v) ==> maps[v] == before[v]
}

/// A region of an address space.
pub struct MapArea {
    start: VirtPageNum,
    end: VirtPageNum,
    data_frames: Vec<FrameTracker>,
    map_type: MapType,
    map_perm: MapPermission,
}

impl View for MapArea {
    type V = AreaView;

    closed spec fn view(&self) -> AreaView {
        AreaView {
            start: self.start.0 as int,
            end: self.end.0 as int,
            map_type: self.map_type,
            perm: self.map_perm,
            frames: frame_numbers(self.data_frames@),
        }
    }
}

impl MapArea {
    /// The region of the pages that the addresses from `start_va` up to
    /// `end_va` touch. Nothing is mapped yet.
    pub fn new(start_va: VirtAddr, end_va: VirtAddr, map_type: MapType, map_perm: MapPermission) -> (area:
        Self)
        ensures
            area@ == (AreaView {
                start: start_va.0 as int / 4096,
                end: (end_va.0 + 4095) / 4096,
                map_type,
                perm: map_perm,
                frames: Seq::<int>::empty(),
            }),
    {
        let area = MapArea {
            start: start_va.floor(),
            end: end_va.ceil(),
            data_frames: Vec::new(),
            map_type,
            map_perm,
        };
        proof {
            assert(area@.frames =~= Seq::<int>::empty());
        }
        area
    }

    /// The first page of the region.
    pub fn start(&self) -> (r: VirtPageNum)
        ensures
            r.0 == self@.start,
    {
        self.start
    }

    /// One more than the last page of the region.
    pub fn end(&self) -> (r: VirtPageNum)
        ensures
            r.0 == self@.end,
    {
        self.end
    }

    /// The permissions of the region.
    pub fn permission(&self) -> (r: MapPermission)
        ensures
            r == self@.perm,
    {
        self.map_perm
    }

    /// How the pages of the region are backed.
    pub fn map_type(&self) -> (r: MapType)
        ensures
            r == self@.map_type,
    {
        self.map_type
    }

    /// Maps page `vpn`, the next page of the region that is not mapped yet.
    /// Where the region is framed, the page gets a fresh, zeroed physical
    /// page.
    #[verifier::rlimit(50)]
    fn map_one(
        &mut self,
        page_table: &mut PageTable,
        allocator: &mut StackFrameAllocator,
        mem: &mut PhysMemory,
        vpn: VirtPageNum,
    )
        requires
            old(allocator).wf(),
            old(mem).wf(),
            backed(old(allocator)@, old(mem)@),
            old(page_table).wf(old(mem)@, old(allocator)@),
            old(self)@.covers(vpn.0 as int),
            0 <= old(self)@.start <= old(self)@.end <= VPN_LIMIT,
            match old(self)@.map_type {
                MapType::Identical => old(self)@.frames.len() == 0,
                MapType::Framed => old(self)@.frames.len() == vpn.0 - old(self)@.start,
                MapType::Direct(base) => old(self)@.frames.len() == 0 && base.0 + (old(self)@.end
                    - old(self)@.start) <= PPN_LIMIT,
            },
            frames_held(old(self)@.frames, old(mem)@, old(allocator)@, old(page_table).owned()),
            !old(page_table).mappings(old(mem)@).dom().contains(vpn.0 as int),
            old(allocator)@.free_count() >= own_frame(old(self)@.map_type) + missing_nodes(
                old(mem)@,
                old(page_table).root(),
                vpn.0 as int,
            ),
        ensures
            final(allocator).wf(),
            final(mem).wf(),
            backed(final(allocator)@, final(mem)@),
            final(page_table).wf(final(mem)@, final(allocator)@),
            final(page_table).root() == old(page_table).root(),
            final(self)@.start == old(self)@.start,
            final(self)@.end == old(self)@.end,
            final(self)@.map_type == old(self)@.map_type,
            final(self)@.perm == old(self)@.perm,
            old(self)@.map_type == MapType::Framed ==> {
                &&& final(self)@.frames.len() == old(self)@.frames.len() + 1
                &&& final(self)@.frames.drop_last() == old(self)@.frames
                &&& !old(allocator)@.is_allocated(final(self)@.frames.last())
                &&& final(mem)@[final(self)@.frames.last()] == zero_page()
            },
            old(self)@.map_type != MapType::Framed ==> final(self)@.frames == old(self)@.frames,
            frames_held(
                final(self)@.frames,
                final(mem)@,
                final(allocator)@,
                final(page_table).owned(),
            ),
            final(page_table).mappings(final(mem)@) == old(page_table).mappings(
                old(mem)@,
            ).insert(vpn.0 as int, final(self)@.entry(vpn.0 as int)),
            final(allocator)@.free_count() == old(allocator)@.free_count() - own_frame(
                old(self)@.map_type,
            ) - missing_nodes(old(mem)@, old(page_table).root(), vpn.0 as int),
            final(page_table).frame_list().len() == old(page_table).frame_list().len()
                + missing_nodes(old(mem)@, old(page_table).root(), vpn.0 as int),
            confined(
                old(allocator)@,
                final(allocator)@,
                old(mem)@,
                final(mem)@,
                old(page_table).owned(),
            ),
            forall|p: int|
                final(page_table).owned().contains(p) ==> old(page_table).owned().contains(p)
                    || !old(allocator)@.is_allocated(p),
            old(page_table).owned().subset_of(final(page_table).owned()),
            forall|p: int|
                old(allocator)@.is_allocated(p) ==> #[trigger] final(allocator)@.is_allocated(p),
    {
        let ghost a0 = allocator@;
        let ghost m0 = mem@;
        let ghost owned0 = page_table.owned();
        let ghost frames0 = self@.frames;
        proof {
            allocator.lemma_wf();
        }
        let ppn = match self.map_type {
            MapType::Identical => PhysPageNum(vpn.0),
            MapType::Direct(base) => PhysPageNum(base.0 + (vpn.0 - self.start.0)),
            MapType::Framed => {
                let frame = frame_alloc(allocator, mem).unwrap();
                let p = frame.ppn();
                self.data_frames.push(frame);
                proof {
                    assert(self@.frames =~= frames0.push(p.0 as int));
                    assert(self@.frames.drop_last() =~= frames0);
                }
                p
            },
        };
        let ghost a1 = allocator@;
        let ghost m1 = mem@;
        proof {
            allocator.lemma_wf();
            page_table.lemma_wf_frame(m0, m1);
            lemma_tree_frame(m0, m1, page_table.root(), owned0);
            assert(missing_nodes(m1, page_table.root(), vpn.0 as int) == missing_nodes(
                m0,
                page_table.root(),
                vpn.0 as int,
            ));
            lemma_confined_wider(a0, a1, m0, m1, Set::<int>::empty(), owned0);
            assert forall|p: int| owned0.contains(p) implies a0.start <= p < a0.end by {
                assert(a0.is_allocated(p));
            }
        }
        page_table.map(allocator, mem, vpn, ppn, PTEFlags::from_bits(self.map_perm.bits));
        proof {
            allocator.lemma_wf();
            lemma_confined_then(a0, a1, allocator@, m0, m1, mem@, owned0, owned0);
            let frames = self@.frames;
            assert forall|k: int| 0 <= k < frames.len() implies {
                &&& allocator@.is_allocated(#[trigger] frames[k])
                &&& mem@.dom().contains(frames[k])
                &&& !page_table.owned().contains(frames[k])
                &&& 0 <= frames[k] < PPN_LIMIT
            } by {
                if k < frames0.len() {
                    assert(frames[k] == frames0[k]);
                    assert(a0.is_allocated(frames0[k]));
                }
                assert(a1.is_allocated(frames[k]));
            }
            assert(frames.no_duplicates()) by {
                assert forall|i: int, j: int|
                    0 <= i < frames.len() && 0 <= j < frames.len() && i != j implies frames[i]
                    != frames[j] by {
                    if i < frames0.len() {
                        assert(frames[i] == frames0[i]);
                        assert(a0.is_allocated(frames0[i]));
                    }
                    if j < frames0.len() {
                        assert(frames[j] == frames0[j]);
                        assert(a0.is_allocated(frames0[j]));
                    }
                }
            }
            assert forall|p: int| a0.is_allocated(p) implies #[trigger] allocator@.is_allocated(
                p,
            ) by {
                assert(a1.is_allocated(p));
                if owned0.contains(p) {
                    assert(page_table.owned().contains(p));
                }
            }
            if self@.map_type == MapType::Framed {
                let c = frames.last();
                assert(a1.is_allocated(c) && !owned0.contains(c));
                assert(mem@[c] == m1[c]);
            }
        }
    }

    /// Maps every page of the region, which must be unmapped as yet. Where
    /// the region is framed, each page gets a fresh, zeroed physical page.
    #[verifier::rlimit(50)]
    pub fn map(
        &mut self,
        page_table: &mut PageTable,
        allocator: &mut StackFrameAllocator,
        mem: &mut PhysMemory,
    )
        requires
            old(allocator).wf(),
            old(mem).wf(),
            backed(old(allocator)@, old(mem)@),
            old(page_table).wf(old(mem)@, old(allocator)@),
            0 <= old(self)@.start <= old(self)@.end <= VPN_LIMIT,
            old(self)@.frames.len() == 0,
            old(self)@.map_type matches MapType::Direct(base) ==> base.0 + (old(self)@.end - old(
                self,
            )@.start) <= PPN_LIMIT,
            forall|v: int|
                old(self)@.covers(v) ==> !old(page_table).mappings(old(mem)@).dom().contains(v),
            old(allocator)@.free_count() >= frames_bound(
                old(self)@.start,
                old(self)@.end,
                old(self)@.map_type == MapType::Framed,
            ),
        ensures
            final(allocator).wf(),
            final(mem).wf(),
            backed(final(allocator)@, final(mem)@),
            final(page_table).wf(final(mem)@, final(allocator)@),
            final(page_table).root() == old(page_table).root(),
            final(self)@ == (AreaView { frames: final(self)@.frames, ..old(self)@ }),
            final(self)@.shaped(),
            frames_held(
                final(self)@.frames,
                final(mem)@,
                final(allocator)@,
                final(page_table).owned(),
            ),
            forall|k: int|
                0 <= k < final(self)@.frames.len() ==> !old(allocator)@.is_allocated(
                    #[trigger] final(self)@.frames[k],
                ) && final(mem)@[final(self)@.frames[k]] == zero_page(),
            final(page_table).mappings(final(mem)@) == old(page_table).mappings(
                old(mem)@,
            ).union_prefer_right(final(self)@.as_map()),
            final(allocator)@.free_count() >= old(allocator)@.free_count() - frames_bound(
                old(self)@.start,
                old(self)@.end,
                old(self)@.map_type == MapType::Framed,
            ),
            final(allocator)@.free_count() == old(allocator)@.free_count() - final(self)@.frames.len() - (final(page_table).frame_list().len() - old(
                page_table,
            ).frame_list().len()),
            confined(
                old(allocator)@,
                final(allocator)@,
                old(mem)@,
                final(mem)@,
                old(page_table).owned(),
            ),
            forall|p: int|
                final(page_table).owned().contains(p) ==> old(page_table).owned().contains(p)
                    || !old(allocator)@.is_allocated(p),
            old(page_table).owned().subset_of(final(page_table).owned()),
            forall|p: int|
                old(allocator)@.is_allocated(p) ==> #[trigger] final(allocator)@.is_allocated(p),
    {
        let ghost a_old = allocator@;
        let ghost m_old = mem@;
        let ghost owned_old = page_table.owned();
        let ghost maps_old = page_table.mappings(mem@);
        let ghost view_old = self@;
        let ghost list_old = page_table.frame_list();
        let mut vpn: u64 = self.start.0;
        let end: u64 = self.end.0;
        proof {
            assert(self@.frames.no_duplicates());
            reveal(frames_left);
        }
        while vpn < end
            invariant
                allocator.wf(),
                mem.wf(),
                backed(allocator@, mem@),
                page_table.wf(mem@, allocator@),
                page_table.root() == old(page_table).root(),
                self@.start == view_old.start,
                self@.end == view_old.end,
                self@.map_type == view_old.map_type,
                self@.perm == view_old.perm,
                end == view_old.end,
                0 <= view_old.start <= vpn <= end <= VPN_LIMIT,
                match view_old.map_type {
                    MapType::Identical => self@.frames.len() == 0,
                    MapType::Framed => self@.frames.len() == vpn - view_old.start,
                    MapType::Direct(base) => self@.frames.len() == 0 && base.0 + (view_old.end
                        - view_old.start) <= PPN_LIMIT,
                },
                frames_held(self@.frames, mem@, allocator@, page_table.owned()),
                forall|k: int|
                    0 <= k < self@.frames.len() ==> !a_old.is_allocated(#[trigger] self@.frames[k])
                        && mem@[self@.frames[k]] == zero_page(),
                self@.mapped_upto(vpn as int, page_table.mappings(mem@)),
                forall|v: int|
                    !(view_old.start <= v < vpn) ==> #[trigger] agree_at(
                        page_table.mappings(mem@),
                        maps_old,
                        v,
                    ),
                forall|v: int| view_old.covers(v) ==> !(#[trigger] maps_old.dom().contains(v)),
                allocator@.free_count() - frames_left(
                    view_old.start,
                    vpn as int,
                    view_old.end,
                    view_old.map_type == MapType::Framed,
                ) >= a_old.free_count() - frames_bound(
                    view_old.start,
                    view_old.end,
                    view_old.map_type == MapType::Framed,
                ),
                a_old.free_count() >= frames_bound(
                    view_old.start,
                    view_old.end,
                    view_old.map_type == MapType::Framed,
                ),
                allocator@.free_count() == a_old.free_count() - self@.frames.len() - (
                page_table.frame_list().len() - list_old.len()),
                confined(a_old, allocator@, m_old, mem@, owned_old),
                forall|p: int|
                    page_table.owned().contains(p) ==> owned_old.contains(p) || !a_old.is_allocated(
                        p,
                    ),
                owned_old.subset_of(page_table.owned()),
                forall|p: int| a_old.is_allocated(p) ==> #[trigger] allocator@.is_allocated(p),
            decreases end - vpn,
        {
            let ghost a0 = allocator@;
            let ghost m0 = mem@;
            let ghost owned0 = page_table.owned();
            let ghost maps0 = page_table.mappings(mem@);
            let ghost view0 = self@;
            proof {
                allocator.lemma_wf();
                assert(!maps0.dom().contains(vpn as int)) by {
                    assert(view_old.covers(vpn as int));
                    assert(agree_at(maps0, maps_old, vpn as int));
                }
                let root = page_table.root();
                if vpn > view_old.start {
                    assert(view0.mapped_upto(vpn as int, maps0));
                    assert(maps0.dom().contains(vpn - 1));
                    lemma_next_page_nodes(m0, root, vpn as int);
                }
                lemma_frames_left_step(
                    view_old.start,
                    vpn as int,
                    view_old.end,
                    view_old.map_type == MapType::Framed,
                    missing_nodes(m0, root, vpn as int),
                );
            }
            self.map_one(page_table, allocator, mem, VirtPageNum(vpn));
            proof {
                let view1 = self@;
                assert forall|p: int| owned0.contains(p) implies a_old.start <= p < a_old.end by {
                    assert(a0.is_allocated(p));
                }
                lemma_confined_then(a_old, a0, allocator@, m_old, m0, mem@, owned_old, owned0);
                let maps1 = page_table.mappings(mem@);
                assert forall|v: int| !(view_old.start <= v < vpn + 1) implies #[trigger] agree_at(
                    maps1,
                    maps_old,
                    v,
                ) by {
                    assert(agree_at(maps0, maps_old, v));
                }
                assert forall|v: int| view1.start <= v < vpn + 1 implies #[trigger] maps1.dom().contains(
                    v,
                ) && maps1[v] == view1.entry(v) by {
                    if v != vpn {
                        assert(view0.mapped_upto(vpn as int, maps0));
                        assert(maps0.dom().contains(v));
                        assert(maps0[v] == view0.entry(v));
                        assert(maps1[v] == maps0[v]);
                        if view_old.map_type == MapType::Framed {
                            assert(view1.frames.drop_last()[v - view1.start] == view1.frames[v
                                - view1.start]);
                        }
                        assert(view1.entry(v) == view0.entry(v));
                    }
                }
                assert forall|k: int| 0 <= k < view1.frames.len() implies !a_old.is_allocated(
                    #[trigger] view1.frames[k],
                ) && mem@[view1.frames[k]] == zero_page() by {
                    if k < view0.frames.len() {
                        assert(view1.frames.drop_last()[k] == view1.frames[k]);
                        assert(view0.frames[k] == view1.frames[k]);
                        assert(a0.is_allocated(view0.frames[k]));
                        assert(!owned0.contains(view0.frames[k]));
                        assert(mem@[view0.frames[k]] == m0[view0.frames[k]]);
                    }
                }
            }
            vpn += 1;
        }
        proof {
            let maps = page_table.mappings(mem@);
            let want = maps_old.union_prefer_right(self@.as_map());
            assert forall|v: int| maps.dom().contains(v) == want.dom().contains(v) by {
                if !self@.covers(v) {
                    assert(agree_at(maps, maps_old, v));
                }
            }
            assert forall|v: int| maps.dom().contains(v) implies maps[v] == want[v] by {
                if !self@.covers(v) {
                    assert(agree_at(maps, maps_old, v));
                }
            }
            assert(maps =~= want);
        }
    }

    /// Takes the pages from `lo` up to `hi` out of the region: they are
    /// unmapped, and the physical pages that the region owns for them go
    /// back to the allocator. What is left of the region below `lo` stays in
    /// `self`; what is left of it from `hi` on is the result.
    #[verifier::rlimit(50)]
    pub fn carve(
        &mut self,
        page_table: &mut PageTable,
        allocator: &mut StackFrameAllocator,
        mem: &mut PhysMemory,
        lo: VirtPageNum,
        hi: VirtPageNum,
    ) -> (right: MapArea)
        requires
            lo.0 <= hi.0,
            old(self)@.shaped(),
            old(allocator).wf(),
            old(mem).wf(),
            old(page_table).wf(old(mem)@, old(allocator)@),
            old(self)@.mapped_in(old(page_table).mappings(old(mem)@)),
            frames_held(old(self)@.frames, old(mem)@, old(allocator)@, old(page_table).owned()),
        ensures
            final(self)@ == old(self)@.below(lo.0 as int),
            right@ == old(self)@.from_page(hi.0 as int),
            final(allocator).wf(),
            final(mem).wf(),
            final(mem).spec_base() == old(mem).spec_base(),
            final(mem).spec_end() == old(mem).spec_end(),
            final(mem)@.dom() == old(mem)@.dom(),
            final(page_table).wf(final(mem)@, final(allocator)@),
            final(page_table).root() == old(page_table).root(),
            final(page_table).owned() == old(page_table).owned(),
            final(page_table).mappings(final(mem)@) == old(page_table).mappings(
                old(mem)@,
            ).remove_keys(old(self)@.pages_between(lo.0 as int, hi.0 as int)),
            forall|p: int|
                old(mem)@.dom().contains(p) && !old(page_table).owned().contains(p)
                    ==> #[trigger] final(mem)@[p] == old(mem)@[p],
            final(allocator)@.start == old(allocator)@.start,
            final(allocator)@.end == old(allocator)@.end,
            final(allocator)@.free_count() == old(allocator)@.free_count() + old(
                self,
            )@.frames_between(lo.0 as int, hi.0 as int).len(),
            forall|q: int|
                #[trigger] final(allocator)@.is_allocated(q) == (old(allocator)@.is_allocated(q)
                    && !old(self)@.frames_between(lo.0 as int, hi.0 as int).contains(q)),
    {
        let ghost view0 = self@;
        let ghost a0 = allocator@;
        let ghost m0 = mem@;
        let ghost maps0 = page_table.mappings(mem@);
        let ghost owned0 = page_table.owned();
        let start: u64 = self.start.0;
        let end: u64 = self.end.0;
        let s: u64 = if lo.0 < start {
            start
        } else if lo.0 > end {
            end
        } else {
            lo.0
        };
        let e: u64 = if hi.0 < start {
            start
        } else if hi.0 > end {
            end
        } else {
            hi.0
        };
        let mut v: u64 = s;
        while v < e
            invariant
                mem.wf(),
                mem.spec_base() == old(mem).spec_base(),
                mem.spec_end() == old(mem).spec_end(),
                mem@.dom() == m0.dom(),
                page_table.well_formed(mem@),
                page_table.root() == old(page_table).root(),
                page_table.owned() == owned0,
                view0.shaped(),
                view0.mapped_in(maps0),
                view0.start <= s <= v <= e <= view0.end,
                forall|w: int| s <= w < v ==> !(#[trigger] page_table.mappings(mem@).dom().contains(w)),
                forall|w: int|
                    !(s <= w < v) ==> #[trigger] agree_at(page_table.mappings(mem@), maps0, w),
                forall|p: int|
                    m0.dom().contains(p) && !owned0.contains(p) ==> #[trigger] mem@[p] == m0[p],
            decreases e - v,
        {
            let ghost maps1 = page_table.mappings(mem@);
            let ghost m1 = mem@;
            proof {
                assert(agree_at(maps1, maps0, v as int));
                assert(maps0.dom().contains(v as int));
            }
            page_table.unmap(mem, VirtPageNum(v));
            proof {
                let maps2 = page_table.mappings(mem@);
                assert forall|w: int| !(s <= w < v + 1) implies #[trigger] agree_at(
                    maps2,
                    maps0,
                    w,
                ) by {
                    assert(agree_at(maps1, maps0, w));
                }
                assert forall|w: int| s <= w < v + 1 implies !(#[trigger] maps2.dom().contains(
                    w,
                )) by {
                    if w != v {
                        assert(!maps1.dom().contains(w));
                    }
                }
                assert forall|p: int| m0.dom().contains(p) && !owned0.contains(p) implies #[trigger] mem@[p]
                    == m0[p] by {
                    assert(m1[p] == m0[p]);
                }
            }
            v += 1;
        }
        proof {
            let maps = page_table.mappings(mem@);
            let want = maps0.remove_keys(view0.pages_between(lo.0 as int, hi.0 as int));
            assert forall|w: int| maps.dom().contains(w) == want.dom().contains(w) by {
                if !(s <= w < e) {
                    assert(agree_at(maps, maps0, w));
                } else {
                    assert(maps0.dom().contains(w));
                }
            }
            assert forall|w: int| maps.dom().contains(w) implies maps[w] == want[w] by {
                if !(s <= w < e) {
                    assert(agree_at(maps, maps0, w));
                }
            }
            assert(maps =~= want);
        }
        let mut right_frames: Vec<FrameTracker> = Vec::new();
        let ghost mid0 = view0.frames_between(lo.0 as int, hi.0 as int);
        if let MapType::Framed = self.map_type {
            let ghost all = self.data_frames@;
            right_frames = self.data_frames.split_off((e - start) as usize);
            let mut mid = self.data_frames.split_off((s - start) as usize);
            proof {
                assert(frame_numbers(mid@) =~= mid0);
                assert(frame_numbers(self.data_frames@) =~= view0.frames.subrange(0, s - start));
                assert(frame_numbers(right_frames@) =~= view0.frames.subrange(
                    e - start,
                    view0.frames.len() as int,
                ));
                assert forall|k: int| 0 <= k < mid0.len() implies a0.is_allocated(
                    #[trigger] mid0[k],
                ) by {
                    assert(mid0[k] == view0.frames[k + (s - start)]);
                }
                assert(mid0.no_duplicates()) by {
                    assert forall|i: int, j: int|
                        0 <= i < mid0.len() && 0 <= j < mid0.len() && i != j implies mid0[i]
                        != mid0[j] by {
                        assert(mid0[i] == view0.frames[i + (s - start)]);
                        assert(mid0[j] == view0.frames[j + (s - start)]);
                    }
                }
            }
            while mid.len() > 0
                invariant
                    allocator.wf(),
                    allocator@.start == a0.start,
                    allocator@.end == a0.end,
                    mid@.len() <= mid0.len(),
                    frame_numbers(mid@) == mid0.subrange(0, mid@.len() as int),
                    mid0.no_duplicates(),
                    forall|k: int| 0 <= k < mid0.len() ==> a0.is_allocated(#[trigger] mid0[k]),
                    allocator@.free_count() == a0.free_count() + (mid0.len() - mid@.len()),
                    forall|q: int|
                        #[trigger] allocator@.is_allocated(q) == (a0.is_allocated(q) && !among(
                            mid0,
                            mid@.len() as int,
                            q,
                        )),
                decreases mid@.len(),
            {
                let ghost n = mid@.len() as int;
                let ghost a1 = allocator@;
                let ghost before = mid@;
                let frame = mid.pop().unwrap();
                proof {
                    allocator.lemma_wf();
                    let p = frame.spec_ppn().0 as int;
                    assert(frame_numbers(before)[n - 1] == p);
                    assert(mid0.subrange(0, n)[n - 1] == p);
                    assert(p == mid0[n - 1]);
                    assert(!among(mid0, n, p)) by {
                        if among(mid0, n, p) {
                            let k = choose|k: int| n <= k < mid0.len() && mid0[k] == p;
                            assert(mid0[k] != mid0[n - 1]);
                        }
                    }
                    lemma_dealloc(a1, p);
                    assert(frame_numbers(mid@) =~= mid0.subrange(0, n - 1));
                }
                frame_dealloc(allocator, frame);
                proof {
                    let p = mid0[n - 1];
                    assert forall|q: int| #[trigger]
                        allocator@.is_allocated(q) == (a0.is_allocated(q) && !among(
                            mid0,
                            n - 1,
                            q,
                        )) by {
                        assert(a1.is_allocated(q) == (a0.is_allocated(q) && !among(mid0, n, q)));
                        if among(mid0, n, q) {
                            let k = choose|k: int| n <= k < mid0.len() && mid0[k] == q;
                            assert(n - 1 <= k < mid0.len() && mid0[k] == q);
                        }
                        if among(mid0, n - 1, q) && q != p {
                            let k = choose|k: int| n - 1 <= k < mid0.len() && mid0[k] == q;
                            assert(n <= k < mid0.len() && mid0[k] == q);
                        }
                        if q == p {
                            assert(n - 1 <= n - 1 < mid0.len() && mid0[n - 1] == q);
                        }
                    }
                }
            }
            proof {
                assert forall|q: int| among(mid0, 0, q) == mid0.contains(q) by {
                    if among(mid0, 0, q) {
                        let k = choose|k: int| 0 <= k < mid0.len() && mid0[k] == q;
                        assert(mid0[k] == q);
                    }
                    if mid0.contains(q) {
                        let k = choose|k: int| 0 <= k < mid0.len() && mid0[k] == q;
                        assert(0 <= k < mid0.len() && mid0[k] == q);
                    }
                }
            }
        } else {
            proof {
                assert(mid0 =~= Seq::<int>::empty());
            }
        }
        let right_type = match self.map_type {
            MapType::Direct(base) => MapType::Direct(PhysPageNum(base.0 + (e - start))),
            MapType::Identical => MapType::Identical,
            MapType::Framed => MapType::Framed,
        };
        let right = MapArea {
            start: VirtPageNum(e),
            end: self.end,
            data_frames: right_frames,
            map_type: right_type,
            map_perm: self.map_perm,
        };
        self.end = VirtPageNum(s);
        proof {
            assert(self@.frames =~= view0.below(lo.0 as int).frames);
            assert(right@.frames =~= view0.from_page(hi.0 as int).frames);
            assert forall|p: int| page_table.owned().contains(p) implies allocator@.is_allocated(
                p,
            ) by {
                assert(a0.is_allocated(p));
                if mid0.contains(p) {
                    let k = choose|k: int| 0 <= k < mid0.len() && mid0[k] == p;
                    assert(mid0[k] == view0.frames[k + (s - start)]);
                }
            }
        }
        right
    }
}

/// The byte at offset `off` of the physical pages `frames` taken as one run
/// of memory.
pub open spec fn frames_byte(m: MemoryMap, frames: Seq<int>, off: int) -> u8 {
    page_byte(m[frames[off / 4096]], off % 4096)
}

impl MapArea {
    /// Copies `data` into the physical pages of a framed region, from
    /// offset `offset` of its first page on.
    #[verifier::rlimit(50)]
    pub fn copy_data(&self, mem: &mut PhysMemory, data: &[u8], offset: usize)
        requires
            old(mem).wf(),
            self@.map_type == MapType::Framed,
            self@.shaped(),
            self@.frames.no_duplicates(),
            forall|k: int|
                0 <= k < self@.frames.len() ==> old(mem)@.dom().contains(#[trigger] self@.frames[k]),
            offset + data@.len() <= 4096 * self@.frames.len(),
        ensures
            final(mem).wf(),
            final(mem).spec_base() == old(mem).spec_base(),
            final(mem).spec_end() == old(mem).spec_end(),
            final(mem)@.dom() == old(mem)@.dom(),
            forall|p: int|
                old(mem)@.dom().contains(p) && !self@.frames.contains(p)
                    ==> #[trigger] final(mem)@[p] == old(mem)@[p],
            forall|o: int|
                0 <= o < 4096 * self@.frames.len() ==> #[trigger] frames_byte(
                    final(mem)@,
                    self@.frames,
                    o,
                ) == if offset <= o < offset + data@.len() {
                    data@[o - offset]
                } else {
                    frames_byte(old(mem)@, self@.frames, o)
                },
    {
        let ghost frames = self@.frames;
        let ghost m0 = mem@;
        let n: usize = data.len();
        let mut i: usize = 0;
        while i < n
            invariant
                mem.wf(),
                mem.spec_base() == old(mem).spec_base(),
                mem.spec_end() == old(mem).spec_end(),
                mem@.dom() == m0.dom(),
                frames == self@.frames,
                frames == frame_numbers(self.data_frames@),
                frames.no_duplicates(),
                frames.len() <= VPN_LIMIT,
                forall|k: int| 0 <= k < frames.len() ==> m0.dom().contains(#[trigger] frames[k]),
                n == data@.len(),
                i <= n,
                offset + n <= 4096 * frames.len(),
                forall|p: int|
                    m0.dom().contains(p) && !frames.contains(p) ==> #[trigger] mem@[p] == m0[p],
                forall|o: int|
                    0 <= o < 4096 * frames.len() ==> #[trigger] frames_byte(mem@, frames, o) == if offset
                        <= o < offset + i {
                        data@[o - offset]
                    } else {
                        frames_byte(m0, frames, o)
                    },
            decreases n - i,
        {
            let at: u64 = offset as u64 + i as u64;
            let pages: usize = self.data_frames.len();
            assert(at / 4096 < pages);
            let k: usize = (at / 4096) as usize;
            let ppn = self.data_frames[k].ppn();
            let ghost m1 = mem@;
            proof {
                assert(frames[k as int] == ppn.0);
                assert(m0.dom().contains(frames[k as int]));
            }
            mem.write_byte(ppn, (at % 4096) as usize, data[i]);
            proof {
                assert forall|p: int|
                    m0.dom().contains(p) && !frames.contains(p) implies #[trigger] mem@[p]
                    == m0[p] by {
                    assert(frames.contains(frames[k as int]));
                    assert(m1[p] == m0[p]);
                }
                assert forall|o: int| 0 <= o < 4096 * frames.len() implies #[trigger] frames_byte(
                    mem@,
                    frames,
                    o,
                ) == if offset <= o < offset + i + 1 {
                    data@[o - offset]
                } else {
                    frames_byte(m0, frames, o)
                } by {
                    assert(frames_byte(m1, frames, o) == if offset <= o < offset + i {
                        data@[o - offset]
                    } else {
                        frames_byte(m0, frames, o)
                    });
                    if o / 4096 == k {
                        assert(page_byte(mem@[ppn.0 as int], o % 4096) == if o % 4096 == at % 4096 {
                            data@[i as int]
                        } else {
                            page_byte(m1[ppn.0 as int], o % 4096)
                        });
                    } else {
                        assert(frames[o / 4096] != frames[k as int]);
                        assert(mem@[frames[o / 4096]] == m1[frames[o / 4096]]);
                    }
                }
            }
            i += 1;
        }
    }
}

/// Gives the pages of `frames` back to the allocator. Each must be owned,
/// and none may occur twice.
#[verifier::rlimit(50)]
pub fn release_frames(allocator: &mut StackFrameAllocator, frames: Vec<FrameTracker>)
    requires
        old(allocator).wf(),
        frame_numbers(frames@).no_duplicates(),
        forall|k: int|
            0 <= k < frames@.len() ==> old(allocator)@.is_allocated(
                #[trigger] frame_numbers(frames@)[k],
            ),
    ensures
        final(allocator).wf(),
        final(allocator)@.start == old(allocator)@.start,
        final(allocator)@.end == old(allocator)@.end,
        final(allocator)@.free_count() == old(allocator)@.free_count() + frames@.len(),
        forall|q: int|
            #[trigger] final(allocator)@.is_allocated(q) == (old(allocator)@.is_allocated(q)
                && !frame_numbers(frames@).contains(q)),
{
    let ghost a0 = allocator@;
    let ghost all = frame_numbers(frames@);
    let mut rest = frames;
    while rest.len() > 0
        invariant
            allocator.wf(),
            allocator@.start == a0.start,
            allocator@.end == a0.end,
            rest@.len() <= all.len(),
            frame_numbers(rest@) == all.subrange(0, rest@.len() as int),
            all.no_duplicates(),
            forall|k: int| 0 <= k < all.len() ==> a0.is_allocated(#[trigger] all[k]),
            allocator@.free_count() == a0.free_count() + (all.len() - rest@.len()),
            forall|q: int|
                #[trigger] allocator@.is_allocated(q) == (a0.is_allocated(q) && !among(
                    all,
                    rest@.len() as int,
                    q,
                )),
        decreases rest@.len(),
    {
        let ghost n = rest@.len() as int;
        let ghost a1 = allocator@;
        let ghost before = rest@;
        let frame = rest.pop().unwrap();
        proof {
            allocator.lemma_wf();
            let p = frame.spec_ppn().0 as int;
            assert(frame_numbers(before)[n - 1] == p);
            assert(all.subrange(0, n)[n - 1] == p);
            assert(p == all[n - 1]);
            assert(!among(all, n, p)) by {
                if among(all, n, p) {
                    let k = choose|k: int| n <= k < all.len() && all[k] == p;
                    assert(all[k] != all[n - 1]);
                }
            }
            lemma_dealloc(a1, p);
            assert(frame_numbers(rest@) =~= all.subrange(0, n - 1));
        }
        frame_dealloc(allocator, frame);
        proof {
            let p = all[n - 1];
            assert forall|q: int| #[trigger]
                allocator@.is_allocated(q) == (a0.is_allocated(q) && !among(all, n - 1, q)) by {
                assert(a1.is_allocated(q) == (a0.is_allocated(q) && !among(all, n, q)));
                if among(all, n, q) {
                    let k = choose|k: int| n <= k < all.len() && all[k] == q;
                    assert(n - 1 <= k < all.len() && all[k] == q);
                }
                if among(all, n - 1, q) && q != p {
                    let k = choose|k: int| n - 1 <= k < all.len() && all[k] == q;
                    assert(n <= k < all.len() && all[k] == q);
                }
                if q == p {
                    assert(n - 1 <= n - 1 < all.len() && all[n - 1] == q);
                }
            }
        }
    }
    proof {
        assert forall|q: int| among(all, 0, q) == all.contains(q) by {
            if among(all, 0, q) {
                let k = choose|k: int| 0 <= k < all.len() && all[k] == q;
                assert(all[k] == q);
            }
            if all.contains(q) {
                let k = choose|k: int| 0 <= k < all.len() && all[k] == q;
                assert(0 <= k < all.len() && all[k] == q);
            }
        }
    }
}

impl MapArea {
    /// Gives the physical pages that the region owns back to the allocator.
    /// The region is gone; its pages stay mapped in the page table, which
    /// has to go as well.
    pub fn release(self, allocator: &mut StackFrameAllocator)
        requires
            old(allocator).wf(),
            self@.frames.no_duplicates(),
            forall|k: int|
                0 <= k < self@.frames.len() ==> old(allocator)@.is_allocated(
                    #[trigger] self@.frames[k],
                ),
        ensures
            final(allocator).wf(),
            final(allocator)@.start == old(allocator)@.start,
            final(allocator)@.end == old(allocator)@.end,
            final(allocator)@.free_count() == old(allocator)@.free_count() + self@.frames.len(),
            forall|q: int|
                #[trigger] final(allocator)@.is_allocated(q) == (old(allocator)@.is_allocated(q)
                    && !self@.frames.contains(q)),
    {
        release_frames(allocator, self.data_frames);
    }
}

/// `q` is one of the numbers of `s` from index `from` on.
pub open spec fn among(s: Seq<int>, from: int, q: int) -> bool {
    exists|k: int| from <= k < s.len() && s[k] == q
}

/// `x` where it lies between `start` and `end`, else the nearer of the two.
pub open spec fn clip(x: int, start: int, end: int) -> int {
    if x < start {
        start
    } else if x > end {
        end
    } else {
        x
    }
}

impl AreaView {
    /// The pages of the region from `lo` up to `hi`.
    pub open spec fn pages_between(self, lo: int, hi: int) -> Set<int> {
        Set::new(|v: int| self.covers(v) && lo <= v < hi)
    }

    /// The physical pages that the region owns for its pages from `lo` up
    /// to `hi`.
    pub open spec fn frames_between(self, lo: int, hi: int) -> Seq<int> {
        if self.map_type == MapType::Framed {
            self.frames.subrange(
                clip(lo, self.start, self.end) - self.start,
                clip(hi, self.start, self.end) - self.start,
            )
        } else {
            Seq::empty()
        }
    }

    /// The part of the region below page `lo`.
    pub open spec fn below(self, lo: int) -> AreaView {
        let s = clip(lo, self.start, self.end);
        AreaView {
            start: self.start,
            end: s,
            map_type: self.map_type,
            perm: self.perm,
            frames: if self.map_type == MapType::Framed {
                self.frames.subrange(0, s - self.start)
            } else {
                self.frames
            },
        }
    }

    /// The part of the region from page `hi` on.
    pub open spec fn from_page(self, hi: int) -> AreaView {
        let e = clip(hi, self.start, self.end);
        AreaView {
            start: e,
            end: self.end,
            map_type: match self.map_type {
                MapType::Direct(base) => MapType::Direct(
                    PhysPageNum((base.0 + (e - self.start)) as u64),
                ),
                MapType::Identical => MapType::Identical,
                MapType::Framed => MapType::Framed,
            },
            perm: self.perm,
            frames: if self.map_type == MapType::Framed {
                self.frames.subrange(e - self.start, self.frames.len() as int)
            } else {
                self.frames
            },
        }
    }
}

} // verus!
