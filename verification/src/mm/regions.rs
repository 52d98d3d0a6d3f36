//! What it means for a list of regions to describe an address space, and
//! how adding a region and taking pages out of one keep that true.

use super::area::{clip, frames_held, AreaView, MapType};
use super::frame_allocator::FrameAllocState;
use super::memory::MemoryMap;
use super::pte::PageTableEntry;
use vstd::prelude::*;

verus! {

/// Every region of `r` is well shaped, is mapped in `maps` and owns its
/// physical pages.
pub open spec fn regions_fit(
    r: Seq<AreaView>,
    maps: Map<int, PageTableEntry>,
    m: MemoryMap,
    a: FrameAllocState,
    table: Set<int>,
) -> bool {
    forall|i: int|
        0 <= i < r.len() ==> {
            &&& (#[trigger] r[i]).shaped()
            &&& r[i].mapped_in(maps)
            &&& frames_held(r[i].frames, m, a, table)
        }
}

/// No two regions of `r` share a virtual page or a physical page of their
/// own.
pub open spec fn regions_apart(r: Seq<AreaView>) -> bool {
    &&& forall|i: int, j: int, v: int|
        0 <= i < r.len() && 0 <= j < r.len() && i != j && #[trigger] r[i].covers(v) ==> !(
        #[trigger] r[j].covers(v))
    &&& forall|i: int, j: int, k: int, l: int|
        0 <= i < r.len() && 0 <= j < r.len() && i != j && 0 <= k < r[i].frames.len() && 0 <= l
            < r[j].frames.len() ==> #[trigger] r[i].frames[k] != #[trigger] r[j].frames[l]
}

/// Every page that `maps` maps belongs to a region of `r`.
pub open spec fn regions_cover(r: Seq<AreaView>, maps: Map<int, PageTableEntry>) -> bool {
    forall|v: int| #[trigger]
        maps.dom().contains(v) ==> exists|i: int| 0 <= i < r.len() && #[trigger] r[i].covers(v)
}

/// The regions `r` describe what `maps` maps, page for page.
pub open spec fn regions_ok(
    r: Seq<AreaView>,
    maps: Map<int, PageTableEntry>,
    m: MemoryMap,
    a: FrameAllocState,
    table: Set<int>,
) -> bool {
    &&& regions_fit(r, maps, m, a, table)
    &&& regions_apart(r)
    &&& regions_cover(r, maps)
}

/// The physical pages that the regions of `r` own.
pub open spec fn region_frames(r: Seq<AreaView>) -> Set<int> {
    Set::new(
        |p: int|
            exists|i: int, k: int|
                0 <= i < r.len() && 0 <= k < r[i].frames.len() && #[trigger] r[i].frames[k] == p,
    )
}

/// A region that is mapped where nothing was mapped, on fresh physical
/// pages, joins the regions that describe an address space.
#[verifier::rlimit(50)]
pub proof fn lemma_push_region(
    r: Seq<AreaView>,
    view: AreaView,
    maps: Map<int, PageTableEntry>,
    maps2: Map<int, PageTableEntry>,
    m: MemoryMap,
    m2: MemoryMap,
    a: FrameAllocState,
    a2: FrameAllocState,
    table: Set<int>,
    table2: Set<int>,
)
    requires
        regions_ok(r, maps, m, a, table),
        view.shaped(),
        frames_held(view.frames, m2, a2, table2),
        forall|k: int| 0 <= k < view.frames.len() ==> !a.is_allocated(#[trigger] view.frames[k]),
        forall|v: int| view.covers(v) ==> !(#[trigger] maps.dom().contains(v)),
        maps2 == maps.union_prefer_right(view.as_map()),
        m2.dom() == m.dom(),
        forall|p: int| a.is_allocated(p) ==> #[trigger] a2.is_allocated(p),
        forall|p: int| table2.contains(p) ==> table.contains(p) || !a.is_allocated(p),
    ensures
        regions_ok(r.push(view), maps2, m2, a2, table2),
{
    let r2 = r.push(view);
    let n = r.len() as int;
    assert forall|i: int| 0 <= i < r2.len() implies {
        &&& (#[trigger] r2[i]).shaped()
        &&& r2[i].mapped_in(maps2)
        &&& frames_held(r2[i].frames, m2, a2, table2)
    } by {
        if i < n {
            assert(r2[i] == r[i]);
            assert(r[i].shaped() && r[i].mapped_in(maps) && frames_held(r[i].frames, m, a, table));
            assert forall|v: int| r[i].start <= v < r[i].end implies #[trigger] maps2.dom().contains(
                v,
            ) && maps2[v] == r[i].entry(v) by {
                assert(r[i].mapped_upto(r[i].end, maps));
                assert(maps.dom().contains(v));
                assert(maps[v] == r[i].entry(v));
                assert(!view.covers(v));
            }
            assert forall|k: int| 0 <= k < r[i].frames.len() implies {
                &&& a2.is_allocated(#[trigger] r[i].frames[k])
                &&& m2.dom().contains(r[i].frames[k])
                &&& !table2.contains(r[i].frames[k])
            } by {
                assert(a.is_allocated(r[i].frames[k]));
            }
        } else {
            assert(r2[i] == view);
            assert forall|v: int| view.start <= v < view.end implies #[trigger] maps2.dom().contains(
                v,
            ) && maps2[v] == view.entry(v) by {
                assert(view.covers(v));
            }
        }
    }
    assert forall|i: int, j: int, v: int|
        0 <= i < r2.len() && 0 <= j < r2.len() && i != j && #[trigger] r2[i].covers(
            v,
        ) implies !(#[trigger] r2[j].covers(v)) by {
        if i < n && j < n {
            assert(r[i].covers(v));
            assert(!r[j].covers(v));
        } else if i < n {
            assert(r[i].mapped_in(maps));
            assert(maps.dom().contains(v));
        } else {
            if r[j].covers(v) {
                assert(r[j].mapped_in(maps));
                assert(maps.dom().contains(v));
            }
        }
    }
    assert forall|i: int, j: int, k: int, l: int|
        0 <= i < r2.len() && 0 <= j < r2.len() && i != j && 0 <= k < r2[i].frames.len() && 0 <= l
            < r2[j].frames.len() implies #[trigger] r2[i].frames[k] != #[trigger] r2[j].frames[l] by {
        if i < n && j < n {
            assert(r[i].frames[k] != r[j].frames[l]);
        } else if i < n {
            assert(frames_held(r[i].frames, m, a, table));
            assert(a.is_allocated(r[i].frames[k]));
            assert(!a.is_allocated(view.frames[l]));
        } else {
            assert(frames_held(r[j].frames, m, a, table));
            assert(a.is_allocated(r[j].frames[l]));
            assert(!a.is_allocated(view.frames[k]));
        }
    }
    assert forall|v: int| #[trigger] maps2.dom().contains(v) implies exists|i: int|
        0 <= i < r2.len() && #[trigger] r2[i].covers(v) by {
        if view.covers(v) {
            assert(r2[n].covers(v));
        } else {
            assert(maps.dom().contains(v));
            let i = choose|i: int| 0 <= i < r.len() && #[trigger] r[i].covers(v);
            assert(r2[i].covers(v));
        }
    }
}

/// The regions after the pages from `lo` up to `hi` have been taken out of
/// region `i`: in its place stands what is left of it below `lo`, and what
/// is left of it from `hi` on is added at the end, unless it is empty.
pub open spec fn carved(r: Seq<AreaView>, i: int, lo: int, hi: int) -> Seq<AreaView> {
    let left = r[i].below(lo);
    let right = r[i].from_page(hi);
    if right.start < right.end {
        r.update(i, left).push(right)
    } else {
        r.update(i, left)
    }
}

/// Taking the pages from `lo` up to `hi` out of region `i` leaves regions
/// that fit what is then mapped and are apart from each other.
#[verifier::rlimit(50)]
pub proof fn lemma_carve_region(
    r: Seq<AreaView>,
    i: int,
    lo: int,
    hi: int,
    maps: Map<int, PageTableEntry>,
    maps2: Map<int, PageTableEntry>,
    m: MemoryMap,
    m2: MemoryMap,
    a: FrameAllocState,
    a2: FrameAllocState,
    table: Set<int>,
)
    requires
        regions_fit(r, maps, m, a, table),
        regions_apart(r),
        0 <= i < r.len(),
        lo <= hi,
        maps2 == maps.remove_keys(r[i].pages_between(lo, hi)),
        m2.dom() == m.dom(),
        forall|q: int|
            #[trigger] a2.is_allocated(q) == (a.is_allocated(q) && !r[i].frames_between(
                lo,
                hi,
            ).contains(q)),
    ensures
        regions_fit(carved(r, i, lo, hi), maps2, m2, a2, table),
        regions_apart(carved(r, i, lo, hi)),
        carved(r, i, lo, hi).len() >= r.len(),
        forall|j: int| 0 <= j < r.len() && j != i ==> #[trigger] carved(r, i, lo, hi)[j] == r[j],
        forall|j: int, v: int|
            (j == i || r.len() <= j < carved(r, i, lo, hi).len()) && lo <= v < hi ==> !(
            #[trigger] carved(r, i, lo, hi)[j].covers(v)),
        forall|v: int|
            r[i].covers(v) && !(lo <= v < hi) ==> exists|j: int|
                0 <= j < carved(r, i, lo, hi).len() && #[trigger] carved(r, i, lo, hi)[j].covers(
                    v,
                ),
{
    let old_area = r[i];
    let left = old_area.below(lo);
    let right = old_area.from_page(hi);
    let r2 = carved(r, i, lo, hi);
    let n = r.len() as int;
    let s = clip(lo, old_area.start, old_area.end);
    let e = clip(hi, old_area.start, old_area.end);
    let mid = old_area.frames_between(lo, hi);
    let framed = old_area.map_type == MapType::Framed;
    assert(old_area.shaped() && old_area.mapped_in(maps) && frames_held(
        old_area.frames,
        m,
        a,
        table,
    ));
    // A page of a piece is a page of the old region with the same entry.
    assert forall|v: int| left.covers(v) implies old_area.covers(v) && left.entry(v)
        == old_area.entry(v) && !(lo <= v < hi) by {
        if framed {
            assert(left.frames[v - left.start] == old_area.frames[v - old_area.start]);
        }
    }
    assert forall|v: int| right.covers(v) implies old_area.covers(v) && right.entry(v)
        == old_area.entry(v) && !(lo <= v < hi) by {
        if framed {
            assert(right.frames[v - right.start] == old_area.frames[v - old_area.start]);
        }
    }
    // A frame of a piece is a frame of the old region outside the middle.
    assert forall|k: int| 0 <= k < left.frames.len() implies left.frames[k] == old_area.frames[k]
        && !mid.contains(left.frames[k]) by {
        if framed && mid.contains(left.frames[k]) {
            let x = choose|x: int| 0 <= x < mid.len() && mid[x] == left.frames[k];
            assert(mid[x] == old_area.frames[x + (s - old_area.start)]);
        }
    }
    assert forall|k: int| 0 <= k < right.frames.len() implies right.frames[k]
        == old_area.frames[k + (e - old_area.start)] && !mid.contains(right.frames[k]) by {
        if framed && mid.contains(right.frames[k]) {
            let x = choose|x: int| 0 <= x < mid.len() && mid[x] == right.frames[k];
            assert(mid[x] == old_area.frames[x + (s - old_area.start)]);
        }
    }
    assert forall|j: int, k: int|
        0 <= j < n && j != i && 0 <= k < r[j].frames.len() implies !mid.contains(
        #[trigger] r[j].frames[k],
    ) by {
        if mid.contains(r[j].frames[k]) {
            let x = choose|x: int| 0 <= x < mid.len() && mid[x] == r[j].frames[k];
            assert(mid[x] == old_area.frames[x + (s - old_area.start)]);
            assert(r[i].frames[x + (s - old_area.start)] != r[j].frames[k]);
        }
    }
    assert forall|j: int| 0 <= j < r2.len() implies {
        &&& (#[trigger] r2[j]).shaped()
        &&& r2[j].mapped_in(maps2)
        &&& frames_held(r2[j].frames, m2, a2, table)
    } by {
        if j < n && j != i {
            assert(r2[j] == r[j]);
            assert(r[j].shaped() && r[j].mapped_in(maps) && frames_held(r[j].frames, m, a, table));
            assert forall|v: int| r[j].start <= v < r[j].end implies #[trigger] maps2.dom().contains(
                v,
            ) && maps2[v] == r[j].entry(v) by {
                assert(maps.dom().contains(v) && maps[v] == r[j].entry(v));
                assert(r[j].covers(v));
                assert(!r[i].covers(v));
            }
            assert forall|k: int| 0 <= k < r[j].frames.len() implies a2.is_allocated(
                #[trigger] r[j].frames[k],
            ) by {
                assert(a.is_allocated(r[j].frames[k]));
                assert(!mid.contains(r[j].frames[k]));
            }
        } else if j == i {
            assert(r2[j] == left);
            assert forall|v: int| left.start <= v < left.end implies #[trigger] maps2.dom().contains(
                v,
            ) && maps2[v] == left.entry(v) by {
                assert(left.covers(v));
                assert(old_area.covers(v) && !(lo <= v < hi));
                assert(old_area.mapped_upto(old_area.end, maps));
                assert(maps.dom().contains(v));
                assert(maps[v] == old_area.entry(v));
            }
            assert(left.frames.no_duplicates()) by {
                assert forall|x: int, y: int|
                    0 <= x < left.frames.len() && 0 <= y < left.frames.len() && x
                        != y implies left.frames[x] != left.frames[y] by {
                    assert(left.frames[x] == old_area.frames[x]);
                    assert(left.frames[y] == old_area.frames[y]);
                }
            }
            assert forall|k: int| 0 <= k < left.frames.len() implies {
                &&& a2.is_allocated(#[trigger] left.frames[k])
                &&& m2.dom().contains(left.frames[k])
                &&& !table.contains(left.frames[k])
                &&& 0 <= left.frames[k] < super::address::PPN_LIMIT
            } by {
                assert(left.frames[k] == old_area.frames[k]);
                assert(a.is_allocated(old_area.frames[k]));
            }
        } else {
            assert(r2[j] == right);
            assert forall|v: int|
                right.start <= v < right.end implies #[trigger] maps2.dom().contains(v) && maps2[v]
                == right.entry(v) by {
                assert(right.covers(v));
                assert(old_area.covers(v) && !(lo <= v < hi));
                assert(old_area.mapped_upto(old_area.end, maps));
                assert(maps.dom().contains(v));
                assert(maps[v] == old_area.entry(v));
            }
            assert(right.frames.no_duplicates()) by {
                assert forall|x: int, y: int|
                    0 <= x < right.frames.len() && 0 <= y < right.frames.len() && x
                        != y implies right.frames[x] != right.frames[y] by {
                    assert(right.frames[x] == old_area.frames[x + (e - old_area.start)]);
                    assert(right.frames[y] == old_area.frames[y + (e - old_area.start)]);
                }
            }
            assert forall|k: int| 0 <= k < right.frames.len() implies {
                &&& a2.is_allocated(#[trigger] right.frames[k])
                &&& m2.dom().contains(right.frames[k])
                &&& !table.contains(right.frames[k])
                &&& 0 <= right.frames[k] < super::address::PPN_LIMIT
            } by {
                assert(right.frames[k] == old_area.frames[k + (e - old_area.start)]);
                assert(a.is_allocated(old_area.frames[k + (e - old_area.start)]));
            }
        }
    }
    assert forall|x: int, y: int, v: int|
        0 <= x < r2.len() && 0 <= y < r2.len() && x != y && #[trigger] r2[x].covers(
            v,
        ) implies !(#[trigger] r2[y].covers(v)) by {
        let ox = if x < n {
            x
        } else {
            i
        };
        let oy = if y < n {
            y
        } else {
            i
        };
        assert(r[ox].covers(v));
        if ox != oy {
            if r2[y].covers(v) {
                assert(r[oy].covers(v));
            }
        }
    }
    assert forall|x: int, y: int, k: int, l: int|
        0 <= x < r2.len() && 0 <= y < r2.len() && x != y && 0 <= k < r2[x].frames.len() && 0 <= l
            < r2[y].frames.len() implies #[trigger] r2[x].frames[k] != #[trigger] r2[y].frames[l] by {
        let ox = if x < n {
            x
        } else {
            i
        };
        let oy = if y < n {
            y
        } else {
            i
        };
        let kx = if x < n {
            k
        } else {
            k + (e - old_area.start)
        };
        let ly = if y < n {
            l
        } else {
            l + (e - old_area.start)
        };
        assert(r2[x].frames[k] == r[ox].frames[kx]);
        assert(r2[y].frames[l] == r[oy].frames[ly]);
        if ox != oy {
            assert(r[ox].frames[kx] != r[oy].frames[ly]);
        }
    }
    assert forall|v: int| r[i].covers(v) && !(lo <= v < hi) implies exists|j: int|
        0 <= j < r2.len() && #[trigger] r2[j].covers(v) by {
        if v < lo {
            assert(r2[i].covers(v));
        } else {
            assert(right.covers(v));
            assert(r2[n].covers(v));
        }
    }
}

} // verus!
