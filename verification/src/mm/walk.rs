//! What a page table in memory means: the walk from a root through three
//! levels of nodes, and how changes of memory change it.

use super::address::{PPN_LIMIT, VPN_LIMIT};
use super::frame_allocator::FrameAllocState;
use super::memory::{paged, zero_page, MemoryMap};
use super::pte::{lemma_entry_fields, PTEFlags, PageTableEntry, PTE_V};
use vstd::prelude::*;

verus! {

/// The index into the root node that `vpn` selects.
pub open spec fn index0(vpn: int) -> int {
    (vpn / 0x40000) % 512
}

/// The index into the node of the second level that `vpn` selects.
pub open spec fn index1(vpn: int) -> int {
    (vpn / 512) % 512
}

/// The index into the node of the last level that `vpn` selects.
pub open spec fn index2(vpn: int) -> int {
    vpn % 512
}

/// The entry at index `idx` of the node in page `node`.
pub open spec fn entry_at(m: MemoryMap, node: int, idx: int) -> PageTableEntry {
    PageTableEntry { bits: m[node][idx] }
}

/// The node that the entry at `idx` of `node` points to, if that entry is
/// valid.
pub open spec fn child(m: MemoryMap, node: int, idx: int) -> Option<int> {
    let e = entry_at(m, node, idx);
    if e.spec_is_valid() {
        Some(e.spec_ppn())
    } else {
        None
    }
}

/// The node of the second level on the way to `vpn`, if it exists.
pub open spec fn l1_node(m: MemoryMap, root: int, vpn: int) -> Option<int> {
    child(m, root, index0(vpn))
}

/// The node of the last level on the way to `vpn`, if it exists.
pub open spec fn l2_node(m: MemoryMap, root: int, vpn: int) -> Option<int> {
    match l1_node(m, root, vpn) {
        Some(n) => child(m, n, index1(vpn)),
        None => None,
    }
}

/// The entry of the last level for `vpn`, valid or not, if the way to it
/// exists.
pub open spec fn leaf_entry(m: MemoryMap, root: int, vpn: int) -> Option<PageTableEntry> {
    match l2_node(m, root, vpn) {
        Some(n) => Some(entry_at(m, n, index2(vpn))),
        None => None,
    }
}

/// What `vpn` is mapped to: the entry of the last level, if it exists and is
/// valid.
pub open spec fn mapping(m: MemoryMap, root: int, vpn: int) -> Option<PageTableEntry> {
    match leaf_entry(m, root, vpn) {
        Some(e) => if e.spec_is_valid() {
            Some(e)
        } else {
            None
        },
        None => None,
    }
}

/// The number of nodes that have to be made before `vpn` can be mapped.
pub open spec fn missing_nodes(m: MemoryMap, root: int, vpn: int) -> int {
    if l1_node(m, root, vpn) is None {
        2
    } else if l2_node(m, root, vpn) is None {
        1
    } else {
        0
    }
}

/// The table rooted at `root` as a map from the virtual page numbers that
/// are mapped to their entries.
pub open spec fn interp(m: MemoryMap, root: int) -> Map<int, PageTableEntry> {
    Map::new(
        |v: int| 0 <= v < VPN_LIMIT && mapping(m, root, v) is Some,
        |v: int| mapping(m, root, v).unwrap(),
    )
}

/// Every node on every way from `root` exists in memory.
pub open spec fn walkable(m: MemoryMap, root: int) -> bool {
    &&& paged(m)
    &&& m.dom().contains(root)
    &&& forall|v: int| #[trigger] l1_node(m, root, v) matches Some(n) ==> m.dom().contains(n)
    &&& forall|v: int| #[trigger] l2_node(m, root, v) matches Some(n) ==> m.dom().contains(n)
}

/// The nodes reached from `root` form a tree of pages among `owned`: no node
/// is reached on two ways.
pub closed spec fn tree(m: MemoryMap, root: int, owned: Set<int>) -> bool {
    &&& owned.contains(root)
    &&& forall|v: int| #[trigger]
        l1_node(m, root, v) matches Some(n) ==> owned.contains(n) && n != root
    &&& forall|v: int| #[trigger]
        l2_node(m, root, v) matches Some(n) ==> owned.contains(n) && n != root
    &&& forall|v: int, w: int|
        (#[trigger] l1_node(m, root, v)) is Some ==> l1_node(m, root, v) != #[trigger] l2_node(
            m,
            root,
            w,
        )
    &&& forall|v: int, w: int|
        (#[trigger] l1_node(m, root, v)) is Some && l1_node(m, root, v) == #[trigger] l1_node(
            m,
            root,
            w,
        ) ==> index0(v) == index0(w)
    &&& forall|v: int, w: int|
        (#[trigger] l2_node(m, root, v)) is Some && l2_node(m, root, v) == #[trigger] l2_node(
            m,
            root,
            w,
        ) ==> index0(v) == index0(w) && index1(v) == index1(w)
}

/// What an owner of the pages `owned` may do to the allocator and to memory:
/// the pages that others own stay theirs and keep their contents, and so do
/// the pages outside the allocator's range.
pub open spec fn confined(
    a: FrameAllocState,
    a2: FrameAllocState,
    m: MemoryMap,
    m2: MemoryMap,
    owned: Set<int>,
) -> bool {
    &&& a2.start == a.start
    &&& a2.end == a.end
    &&& m2.dom() == m.dom()
    &&& forall|p: int| a.is_allocated(p) && !owned.contains(p) ==> a2.is_allocated(p)
    &&& forall|p: int|
        m.dom().contains(p) && !owned.contains(p) && (a.is_allocated(p) || p < a.start || p
            >= a.end) ==> #[trigger] m2[p] == m[p]
}

/// Whoever is confined to no page at all is confined to any set of pages.
pub proof fn lemma_confined_wider(
    a: FrameAllocState,
    a2: FrameAllocState,
    m: MemoryMap,
    m2: MemoryMap,
    owned: Set<int>,
    wider: Set<int>,
)
    requires
        confined(a, a2, m, m2, owned),
        owned.subset_of(wider),
    ensures
        confined(a, a2, m, m2, wider),
{
}

/// Two virtual page numbers that select the same three indices are equal.
pub proof fn lemma_indices_determine(v: int, w: int)
    requires
        0 <= v < VPN_LIMIT,
        0 <= w < VPN_LIMIT,
        index0(v) == index0(w),
        index1(v) == index1(w),
        index2(v) == index2(w),
    ensures
        v == w,
{
    assert(v == (v / 512) * 512 + v % 512);
    assert(w == (w / 512) * 512 + w % 512);
    assert(v / 512 == (v / 512 / 512) * 512 + (v / 512) % 512);
    assert(w / 512 == (w / 512 / 512) * 512 + (w / 512) % 512);
    assert(v / 512 / 512 == v / 0x40000);
    assert(w / 512 / 512 == w / 0x40000);
}

/// A change of memory that leaves the pages among `owned` as they are
/// leaves the tree, and what every page number is mapped to, as they are.
pub proof fn lemma_tree_frame(m: MemoryMap, m2: MemoryMap, root: int, owned: Set<int>)
    requires
        tree(m, root, owned),
        forall|p: int| owned.contains(p) ==> #[trigger] m2[p] == m[p],
    ensures
        tree(m2, root, owned),
        forall|v: int| #[trigger] l1_node(m2, root, v) == l1_node(m, root, v),
        forall|v: int| #[trigger] l2_node(m2, root, v) == l2_node(m, root, v),
        forall|v: int| #[trigger] leaf_entry(m2, root, v) == leaf_entry(m, root, v),
        forall|v: int| #[trigger] mapping(m2, root, v) == mapping(m, root, v),
        interp(m2, root) == interp(m, root),
{
    assert(m2[root] == m[root]);
    assert forall|v: int| #[trigger] l1_node(m2, root, v) == l1_node(m, root, v) by {}
    assert forall|v: int| #[trigger] l2_node(m2, root, v) == l2_node(m, root, v) by {
        if l1_node(m, root, v) is Some {
            let n = l1_node(m, root, v).unwrap();
            assert(m2[n] == m[n]);
        }
    }
    assert forall|v: int| #[trigger] leaf_entry(m2, root, v) == leaf_entry(m, root, v) by {
        assert(l2_node(m2, root, v) == l2_node(m, root, v));
        if l2_node(m, root, v) is Some {
            let n = l2_node(m, root, v).unwrap();
            assert(m2[n] == m[n]);
        }
    }
    assert forall|v: int| #[trigger] mapping(m2, root, v) == mapping(m, root, v) by {
        assert(leaf_entry(m2, root, v) == leaf_entry(m, root, v));
    }
    assert(interp(m2, root) =~= interp(m, root));
}

/// The nodes of a tree exist in memory when the pages of its owner do.
pub proof fn lemma_tree_walkable(m: MemoryMap, root: int, owned: Set<int>)
    requires
        tree(m, root, owned),
        paged(m),
        owned.subset_of(m.dom()),
    ensures
        walkable(m, root),
        owned.contains(root),
{
}

/// Every node of a tree is among the pages of its owner.
pub proof fn lemma_tree_nodes(m: MemoryMap, root: int, owned: Set<int>, v: int)
    requires
        tree(m, root, owned),
    ensures
        owned.contains(root),
        l1_node(m, root, v) is Some ==> owned.contains(l1_node(m, root, v).unwrap()),
        l2_node(m, root, v) is Some ==> owned.contains(l2_node(m, root, v).unwrap()),
{
}

/// Two steps of an owner, each confined to the pages that it owns at the
/// time, are confined to the pages that it owned at the start, as long as
/// what it came to own in between was free at the start.
pub proof fn lemma_confined_then(
    a0: FrameAllocState,
    a1: FrameAllocState,
    a2: FrameAllocState,
    m0: MemoryMap,
    m1: MemoryMap,
    m2: MemoryMap,
    owned0: Set<int>,
    owned1: Set<int>,
)
    requires
        confined(a0, a1, m0, m1, owned0),
        confined(a1, a2, m1, m2, owned1),
        forall|p: int| owned1.contains(p) ==> owned0.contains(p) || !a0.is_allocated(p),
        forall|p: int| owned1.contains(p) ==> a0.start <= p < a0.end,
    ensures
        confined(a0, a2, m0, m2, owned0),
{
    assert forall|p: int| a0.is_allocated(p) && !owned0.contains(p) implies a2.is_allocated(p) by {
        assert(a1.is_allocated(p));
    }
    assert forall|p: int|
        m0.dom().contains(p) && !owned0.contains(p) && (a0.is_allocated(p) || p < a0.start || p
            >= a0.end) implies #[trigger] m2[p] == m0[p] by {
        assert(m1[p] == m0[p]);
        if a0.is_allocated(p) {
            assert(a1.is_allocated(p));
        }
        assert(m2[p] == m1[p]);
    }
}

/// Linking the fresh, zeroed page `c` into the root at the index that `vpn`
/// selects keeps the tree a tree and maps nothing new.
#[verifier::rlimit(50)]
pub proof fn lemma_link_l1(m: MemoryMap, root: int, owned: Set<int>, vpn: int, c: int) -> (m2:
    MemoryMap)
    requires
        tree(m, root, owned),
        paged(m),
        owned.subset_of(m.dom()),
        l1_node(m, root, vpn) is None,
        !owned.contains(c),
        m.dom().contains(c),
        m[c] == zero_page(),
        0 <= c < PPN_LIMIT,
    ensures
        m2 == m.insert(
            root,
            m[root].update(
                index0(vpn),
                PageTableEntry::spec_new(c, PTEFlags { bits: PTE_V }).bits,
            ),
        ),
        tree(m2, root, owned.insert(c)),
        l1_node(m2, root, vpn) == Some(c),
        l2_node(m2, root, vpn) is None,
        forall|v: int| #[trigger] mapping(m2, root, v) == mapping(m, root, v),
        interp(m2, root) == interp(m, root),
{
    let e = PageTableEntry::spec_new(c, PTEFlags { bits: PTE_V });
    lemma_entry_fields(c, PTEFlags { bits: PTE_V });
    assert(PTEFlags { bits: PTE_V }.spec_contains(PTE_V)) by {
        assert(1u8 & 1u8 == 1u8) by (bit_vector);
    }
    let i = index0(vpn);
    let m2 = m.insert(root, m[root].update(i, e.bits));
    let owned2 = owned.insert(c);
    assert(c != root);
    assert(m2[c] == zero_page());
    assert forall|v: int| #[trigger]
        l1_node(m2, root, v) == (if index0(v) == i {
            Some(c)
        } else {
            l1_node(m, root, v)
        }) by {}
    assert forall|v: int| #[trigger]
        l2_node(m2, root, v) == (if index0(v) == i {
            None
        } else {
            l2_node(m, root, v)
        }) by {
        assert(l1_node(m2, root, v) == (if index0(v) == i {
            Some(c)
        } else {
            l1_node(m, root, v)
        }));
        if index0(v) == i {
            assert(m2[c][index1(v)] == 0);
        } else {
            if l1_node(m, root, v) is Some {
                let n = l1_node(m, root, v).unwrap();
                assert(n != root);
                assert(m2[n] == m[n]);
            }
        }
    }
    assert forall|v: int| index0(v) == i implies l1_node(m, root, v) is None by {
        assert(l1_node(m, root, v) == l1_node(m, root, vpn));
    }
    assert forall|v: int| #[trigger] mapping(m2, root, v) == mapping(m, root, v) by {
        assert(l2_node(m2, root, v) == (if index0(v) == i {
            None
        } else {
            l2_node(m, root, v)
        }));
        if index0(v) == i {
            assert(l1_node(m, root, v) is None);
        } else {
            if l2_node(m, root, v) is Some {
                let n = l2_node(m, root, v).unwrap();
                assert(n != root);
                assert(m2[n] == m[n]);
            }
        }
    }
    assert(interp(m2, root) =~= interp(m, root));
    assert(tree(m2, root, owned2)) by {
        assert forall|v: int| (#[trigger] l1_node(m2, root, v)) is Some implies owned2.contains(l1_node(m2, root, v).unwrap()) && l1_node(m2, root, v).unwrap() != root by {
            assert(l1_node(m2, root, v) == (if index0(v) == i {
                Some(c)
            } else {
                l1_node(m, root, v)
            }));
        }
        assert forall|v: int| (#[trigger] l2_node(m2, root, v)) is Some implies owned2.contains(l2_node(m2, root, v).unwrap()) && l2_node(m2, root, v).unwrap() != root by {
            assert(l2_node(m2, root, v) == (if index0(v) == i {
                None
            } else {
                l2_node(m, root, v)
            }));
        }
        assert forall|v: int, w: int| (#[trigger] l1_node(m2, root, v)) is Some implies l1_node(
            m2,
            root,
            v,
        ) != #[trigger] l2_node(m2, root, w) by {
            assert(l1_node(m2, root, v) == (if index0(v) == i {
                Some(c)
            } else {
                l1_node(m, root, v)
            }));
            assert(l2_node(m2, root, w) == (if index0(w) == i {
                None
            } else {
                l2_node(m, root, w)
            }));
            if index0(w) != i && index0(v) == i {
                if l2_node(m, root, w) is Some {
                    let n = l2_node(m, root, w).unwrap();
                    assert(owned.contains(n));
                }
            }
        }
        assert forall|v: int, w: int|
            (#[trigger] l1_node(m2, root, v)) is Some && l1_node(m2, root, v) == #[trigger] l1_node(
                m2,
                root,
                w,
            ) implies index0(v) == index0(w) by {
            assert(l1_node(m2, root, v) == (if index0(v) == i {
                Some(c)
            } else {
                l1_node(m, root, v)
            }));
            assert(l1_node(m2, root, w) == (if index0(w) == i {
                Some(c)
            } else {
                l1_node(m, root, w)
            }));
            if index0(v) == i && index0(w) != i {
                assert(owned.contains(l1_node(m, root, w).unwrap()));
            }
            if index0(v) != i && index0(w) == i {
                assert(owned.contains(l1_node(m, root, v).unwrap()));
            }
        }
        assert forall|v: int, w: int|
            (#[trigger] l2_node(m2, root, v)) is Some && l2_node(m2, root, v) == #[trigger] l2_node(
                m2,
                root,
                w,
            ) implies index0(v) == index0(w) && index1(v) == index1(w) by {
            assert(l2_node(m2, root, v) == (if index0(v) == i {
                None
            } else {
                l2_node(m, root, v)
            }));
            assert(l2_node(m2, root, w) == (if index0(w) == i {
                None
            } else {
                l2_node(m, root, w)
            }));
        }
    }
    m2
}

/// Linking the fresh, zeroed page `c` into the node of the second level on
/// the way to `vpn` keeps the tree a tree and maps nothing new.
#[verifier::rlimit(50)]
pub proof fn lemma_link_l2(m: MemoryMap, root: int, owned: Set<int>, vpn: int, c: int) -> (m2:
    MemoryMap)
    requires
        tree(m, root, owned),
        paged(m),
        owned.subset_of(m.dom()),
        l1_node(m, root, vpn) is Some,
        l2_node(m, root, vpn) is None,
        !owned.contains(c),
        m.dom().contains(c),
        m[c] == zero_page(),
        0 <= c < PPN_LIMIT,
    ensures
        m2 == m.insert(
            l1_node(m, root, vpn).unwrap(),
            m[l1_node(m, root, vpn).unwrap()].update(
                index1(vpn),
                PageTableEntry::spec_new(c, PTEFlags { bits: PTE_V }).bits,
            ),
        ),
        tree(m2, root, owned.insert(c)),
        l1_node(m2, root, vpn) == l1_node(m, root, vpn),
        l2_node(m2, root, vpn) == Some(c),
        leaf_entry(m2, root, vpn) == Some(PageTableEntry { bits: 0 }),
        forall|v: int| #[trigger] mapping(m2, root, v) == mapping(m, root, v),
        interp(m2, root) == interp(m, root),
{
    let e = PageTableEntry::spec_new(c, PTEFlags { bits: PTE_V });
    lemma_entry_fields(c, PTEFlags { bits: PTE_V });
    assert(PTEFlags { bits: PTE_V }.spec_contains(PTE_V)) by {
        assert(1u8 & 1u8 == 1u8) by (bit_vector);
    }
    let n1 = l1_node(m, root, vpn).unwrap();
    let i0 = index0(vpn);
    let i1 = index1(vpn);
    let m2 = m.insert(n1, m[n1].update(i1, e.bits));
    let owned2 = owned.insert(c);
    assert(owned.contains(n1) && n1 != root);
    assert(m2[root] == m[root]);
    assert(m2[c] == zero_page());
    assert forall|v: int| #[trigger] l1_node(m2, root, v) == l1_node(m, root, v) by {}
    assert forall|v: int| l1_node(m, root, v) == Some(n1) implies index0(v) == i0 by {
        assert(l1_node(m, root, vpn) == l1_node(m, root, v));
    }
    assert forall|v: int| #[trigger]
        l2_node(m2, root, v) == (if index0(v) == i0 && index1(v) == i1 {
            Some(c)
        } else {
            l2_node(m, root, v)
        }) by {
        assert(l1_node(m2, root, v) == l1_node(m, root, v));
        if index0(v) == i0 {
            assert(l1_node(m, root, v) == Some(n1));
        } else {
            if l1_node(m, root, v) is Some {
                let n = l1_node(m, root, v).unwrap();
                assert(n != n1);
                assert(m2[n] == m[n]);
            }
        }
    }
    assert forall|v: int| index0(v) == i0 && index1(v) == i1 implies l2_node(m, root, v) is None by {
        assert(l1_node(m, root, v) == Some(n1));
    }
    assert forall|v: int, n: int| l2_node(m, root, v) == Some(n) implies n != n1 && n != c by {
        assert(l1_node(m, root, vpn) != l2_node(m, root, v));
        assert(owned.contains(n));
    }
    assert forall|v: int| #[trigger] mapping(m2, root, v) == mapping(m, root, v) by {
        assert(l2_node(m2, root, v) == (if index0(v) == i0 && index1(v) == i1 {
            Some(c)
        } else {
            l2_node(m, root, v)
        }));
        if index0(v) == i0 && index1(v) == i1 {
            assert(l2_node(m, root, v) is None);
            assert(m2[c][index2(v)] == 0);
        } else {
            if l2_node(m, root, v) is Some {
                let n = l2_node(m, root, v).unwrap();
                assert(n != n1);
                assert(m2[n] == m[n]);
            }
        }
    }
    assert(interp(m2, root) =~= interp(m, root));
    assert(m2[c][index2(vpn)] == 0);
    assert(tree(m2, root, owned2)) by {
        assert forall|v: int| (#[trigger] l1_node(m2, root, v)) is Some implies owned2.contains(l1_node(m2, root, v).unwrap()) && l1_node(m2, root, v).unwrap() != root by {
            assert(l1_node(m2, root, v) == l1_node(m, root, v));
        }
        assert forall|v: int| (#[trigger] l2_node(m2, root, v)) is Some implies owned2.contains(l2_node(m2, root, v).unwrap()) && l2_node(m2, root, v).unwrap() != root by {
            assert(l2_node(m2, root, v) == (if index0(v) == i0 && index1(v) == i1 {
                Some(c)
            } else {
                l2_node(m, root, v)
            }));
        }
        assert forall|v: int, w: int| (#[trigger] l1_node(m2, root, v)) is Some implies l1_node(
            m2,
            root,
            v,
        ) != #[trigger] l2_node(m2, root, w) by {
            assert(l1_node(m2, root, v) == l1_node(m, root, v));
            assert(l2_node(m2, root, w) == (if index0(w) == i0 && index1(w) == i1 {
                Some(c)
            } else {
                l2_node(m, root, w)
            }));
            assert(owned.contains(l1_node(m, root, v).unwrap()));
        }
        assert forall|v: int, w: int|
            (#[trigger] l1_node(m2, root, v)) is Some && l1_node(m2, root, v) == #[trigger] l1_node(
                m2,
                root,
                w,
            ) implies index0(v) == index0(w) by {
            assert(l1_node(m2, root, v) == l1_node(m, root, v));
            assert(l1_node(m2, root, w) == l1_node(m, root, w));
        }
        assert forall|v: int, w: int|
            (#[trigger] l2_node(m2, root, v)) is Some && l2_node(m2, root, v) == #[trigger] l2_node(
                m2,
                root,
                w,
            ) implies index0(v) == index0(w) && index1(v) == index1(w) by {
            assert(l2_node(m2, root, v) == (if index0(v) == i0 && index1(v) == i1 {
                Some(c)
            } else {
                l2_node(m, root, v)
            }));
            assert(l2_node(m2, root, w) == (if index0(w) == i0 && index1(w) == i1 {
                Some(c)
            } else {
                l2_node(m, root, w)
            }));
            let hit_v = index0(v) == i0 && index1(v) == i1;
            let hit_w = index0(w) == i0 && index1(w) == i1;
            if hit_v && !hit_w {
                assert(owned.contains(l2_node(m, root, w).unwrap()));
            }
            if !hit_v && hit_w {
                assert(owned.contains(l2_node(m, root, v).unwrap()));
            }
        }
    }
    m2
}

/// Storing entry `e` as the entry of the last level for `vpn` changes what
/// `vpn` is mapped to and nothing else.
#[verifier::rlimit(50)]
pub proof fn lemma_set_leaf(m: MemoryMap, root: int, owned: Set<int>, vpn: int, e: PageTableEntry) -> (m2:
    MemoryMap)
    requires
        tree(m, root, owned),
        paged(m),
        owned.subset_of(m.dom()),
        l2_node(m, root, vpn) is Some,
        0 <= vpn < VPN_LIMIT,
    ensures
        m2 == m.insert(
            l2_node(m, root, vpn).unwrap(),
            m[l2_node(m, root, vpn).unwrap()].update(index2(vpn), e.bits),
        ),
        tree(m2, root, owned),
        forall|v: int| #[trigger] l1_node(m2, root, v) == l1_node(m, root, v),
        forall|v: int| #[trigger] l2_node(m2, root, v) == l2_node(m, root, v),
        leaf_entry(m2, root, vpn) == Some(e),
        forall|v: int|
            0 <= v < VPN_LIMIT && v != vpn ==> #[trigger] mapping(m2, root, v) == mapping(
                m,
                root,
                v,
            ),
        interp(m2, root) == if e.spec_is_valid() {
            interp(m, root).insert(vpn, e)
        } else {
            interp(m, root).remove(vpn)
        },
{
    let n2 = l2_node(m, root, vpn).unwrap();
    let i2 = index2(vpn);
    let m2 = m.insert(n2, m[n2].update(i2, e.bits));
    assert(owned.contains(n2) && n2 != root);
    assert(m2[root] == m[root]);
    assert forall|v: int| #[trigger] l1_node(m2, root, v) == l1_node(m, root, v) by {}
    assert forall|v: int| #[trigger] l2_node(m2, root, v) == l2_node(m, root, v) by {
        assert(l1_node(m2, root, v) == l1_node(m, root, v));
        if l1_node(m, root, v) is Some {
            let n = l1_node(m, root, v).unwrap();
            assert(l1_node(m, root, v) != l2_node(m, root, vpn));
            assert(m2[n] == m[n]);
        }
    }
    assert(l2_node(m2, root, vpn) == l2_node(m, root, vpn));
    assert(leaf_entry(m2, root, vpn) == Some(e));
    assert forall|v: int| 0 <= v < VPN_LIMIT && v != vpn implies #[trigger] mapping(m2, root, v)
        == mapping(m, root, v) by {
        assert(l2_node(m2, root, v) == l2_node(m, root, v));
        if l2_node(m, root, v) is Some {
            let n = l2_node(m, root, v).unwrap();
            if n == n2 {
                assert(l2_node(m, root, v) == l2_node(m, root, vpn));
                if index2(v) == i2 {
                    lemma_indices_determine(v, vpn);
                }
            } else {
                assert(m2[n] == m[n]);
            }
        }
    }
    assert(interp(m2, root) =~= if e.spec_is_valid() {
        interp(m, root).insert(vpn, e)
    } else {
        interp(m, root).remove(vpn)
    });
    assert(tree(m2, root, owned)) by {
        assert forall|v: int| (#[trigger] l1_node(m2, root, v)) is Some implies owned.contains(l1_node(m2, root, v).unwrap()) && l1_node(m2, root, v).unwrap() != root by {
            assert(l1_node(m2, root, v) == l1_node(m, root, v));
        }
        assert forall|v: int| (#[trigger] l2_node(m2, root, v)) is Some implies owned.contains(l2_node(m2, root, v).unwrap()) && l2_node(m2, root, v).unwrap() != root by {
            assert(l2_node(m2, root, v) == l2_node(m, root, v));
        }
        assert forall|v: int, w: int| (#[trigger] l1_node(m2, root, v)) is Some implies l1_node(
            m2,
            root,
            v,
        ) != #[trigger] l2_node(m2, root, w) by {
            assert(l1_node(m2, root, v) == l1_node(m, root, v));
            assert(l2_node(m2, root, w) == l2_node(m, root, w));
        }
        assert forall|v: int, w: int|
            (#[trigger] l1_node(m2, root, v)) is Some && l1_node(m2, root, v) == #[trigger] l1_node(
                m2,
                root,
                w,
            ) implies index0(v) == index0(w) by {
            assert(l1_node(m2, root, v) == l1_node(m, root, v));
            assert(l1_node(m2, root, w) == l1_node(m, root, w));
        }
        assert forall|v: int, w: int|
            (#[trigger] l2_node(m2, root, v)) is Some && l2_node(m2, root, v) == #[trigger] l2_node(
                m2,
                root,
                w,
            ) implies index0(v) == index0(w) && index1(v) == index1(w) by {
            assert(l2_node(m2, root, v) == l2_node(m, root, v));
            assert(l2_node(m2, root, w) == l2_node(m, root, w));
        }
    }
    m2
}

/// A table whose only node is the zeroed page `root` is a tree that maps
/// nothing.
pub proof fn lemma_empty_tree(m: MemoryMap, root: int)
    requires
        m.dom().contains(root),
        m[root] == zero_page(),
    ensures
        tree(m, root, set![root]),
        interp(m, root) == Map::<int, PageTableEntry>::empty(),
        forall|v: int| #[trigger] l1_node(m, root, v) is None,
{
    assert forall|v: int| #[trigger] l1_node(m, root, v) is None by {
        assert(m[root][index0(v)] == 0);
    }
    assert forall|v: int| #[trigger] l2_node(m, root, v) is None by {
        assert(l1_node(m, root, v) is None);
    }
    assert forall|v: int| #[trigger] mapping(m, root, v) is None by {
        assert(l2_node(m, root, v) is None);
    }
    assert(interp(m, root) =~= Map::<int, PageTableEntry>::empty());
}

} // verus!
