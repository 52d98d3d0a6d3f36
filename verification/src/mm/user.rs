//! Reading and writing the memory of an address space by its virtual
//! addresses, from the kernel.

use super::address::{VirtPageNum, PPN_LIMIT, VA_LIMIT};
use super::memory::{page_byte, MemoryMap, PhysMemory};
use super::page_table::{chunk, pages_spanned, translated_byte_buffer, PageTable};
use super::walk::{mapping, walkable};
use vstd::prelude::*;

verus! {

/// The physical page that virtual address `va` lies in, in the address
/// space whose page table is rooted at `root`.
pub open spec fn user_page(m: MemoryMap, root: int, va: int) -> int {
    mapping(m, root, va / 4096).unwrap().spec_ppn()
}

/// The byte at virtual address `va` of the address space whose page table
/// is rooted at `root`.
pub open spec fn user_byte(m: MemoryMap, root: int, va: int) -> u8 {
    page_byte(m[user_page(m, root, va)], va % 4096)
}

/// The `len` bytes from virtual address `start` on lie in the address
/// space, every page that they touch is mapped, and mapped to a page of
/// memory.
pub open spec fn user_range_ok(m: MemoryMap, root: int, start: u64, len: u64) -> bool {
    &&& start + len <= VA_LIMIT
    &&& forall|vpn: int|
        len > 0 && start as int / 4096 <= vpn && vpn * 4096 < start + len ==> (
        #[trigger] mapping(m, root, vpn)) is Some && m.dom().contains(
            mapping(m, root, vpn).unwrap().spec_ppn(),
        )
}

/// Whether the `len` bytes from virtual address `start` on can be reached
/// in the address space named by `token`.
pub fn check_user_range(mem: &PhysMemory, token: u64, start: u64, len: u64) -> (b: bool)
    requires
        mem.wf(),
        walkable(mem@, token as int % PPN_LIMIT as int),
    ensures
        b == user_range_ok(mem@, token as int % PPN_LIMIT as int, start, len),
{
    if len > VA_LIMIT || start > VA_LIMIT - len {
        return false;
    }
    if len == 0 {
        return true;
    }
    let page_table = PageTable::from_token(token);
    let ghost root = token as int % PPN_LIMIT as int;
    let end: u64 = start + len;
    let mut vpn: u64 = start / 4096;
    while vpn * 4096 < end
        invariant
            mem.wf(),
            page_table.root() == root,
            root == token as int % PPN_LIMIT as int,
            walkable(mem@, root),
            end == start + len,
            end <= VA_LIMIT,
            len > 0,
            start / 4096 <= vpn,
            vpn <= VA_LIMIT / 4096,
            forall|v: int|
                start as int / 4096 <= v < vpn ==> (#[trigger] mapping(mem@, root, v)) is Some
                    && mem@.dom().contains(mapping(mem@, root, v).unwrap().spec_ppn()),
        decreases VA_LIMIT / 4096 - vpn,
    {
        match page_table.translate(mem, VirtPageNum(vpn)) {
            Some(entry) => {
                if !mem.contains(entry.ppn()) {
                    proof {
                        let v = vpn as int;
                        assert(start as int / 4096 <= v && v * 4096 < start + len);
                        assert(mapping(mem@, root, v) == Some(entry));
                        assert(!mem@.dom().contains(mapping(mem@, root, v).unwrap().spec_ppn()));
                    }
                    return false;
                }
            },
            None => {
                proof {
                    let v = vpn as int;
                    assert(start as int / 4096 <= v && v * 4096 < start + len);
                    assert(mapping(mem@, root, v) is None);
                }
                return false;
            },
        }
        vpn += 1;
    }
    true
}

/// Reads the `len` bytes from virtual address `start` on of the address
/// space named by `token`. The result is `None` exactly where they cannot
/// be reached.
#[verifier::rlimit(50)]
pub fn read_user_bytes(mem: &PhysMemory, token: u64, start: u64, len: u64) -> (r: Option<Vec<u8>>)
    requires
        mem.wf(),
        walkable(mem@, token as int % PPN_LIMIT as int),
    ensures
        r is Some <==> user_range_ok(mem@, token as int % PPN_LIMIT as int, start, len),
        r matches Some(v) ==> v@.len() == len && forall|i: int|
            0 <= i < len ==> #[trigger] v@[i] == user_byte(
                mem@,
                token as int % PPN_LIMIT as int,
                start + i,
            ),
{
    if !check_user_range(mem, token, start, len) {
        return None;
    }
    let ghost root = token as int % PPN_LIMIT as int;
    let ghost first = start as int / 4096;
    let ranges = translated_byte_buffer(mem, token, start, len);
    let mut out: Vec<u8> = Vec::new();
    let mut k: usize = 0;
    while k < ranges.len()
        invariant
            mem.wf(),
            k <= ranges@.len(),
            first == start as int / 4096,
            start + len <= VA_LIMIT,
            user_range_ok(mem@, root, start, len),
            ranges@.len() == pages_spanned(start as int, len as int),
            forall|i: int|
                0 <= i < ranges@.len() ==> #[trigger] ranges@[i] == chunk(
                    mem@,
                    root,
                    start as int,
                    start + len,
                    i,
                ),
            forall|i: int| 0 <= i < ranges@.len() ==> (#[trigger] ranges@[i]).start < ranges@[i].end
                <= 4096,
            k == 0 ==> out@.len() == 0,
            k > 0 ==> start + out@.len() == if (first + k) * 4096 <= start + len {
                (first + k) * 4096
            } else {
                start + len
            },
            forall|i: int| 0 <= i < out@.len() ==> #[trigger] out@[i] == user_byte(
                mem@,
                root,
                start + i,
            ),
        decreases ranges@.len() - k,
    {
        let range = ranges[k];
        let ghost done = out@.len() as int;
        let ghost page = (first + k) * 4096;
        proof {
            assert(range == chunk(mem@, root, start as int, start + len, k as int));
            assert(mapping(mem@, root, first + k) is Some);
            assert(page + range.start == start + done);
        }
        let mut off: usize = range.start;
        while off < range.end
            invariant
                mem.wf(),
                range.start <= off <= range.end <= 4096,
                mem@.dom().contains(range.ppn.0 as int),
                range.ppn.0 == user_page(mem@, root, page),
                page == (first + k) * 4096,
                page + range.start == start + done,
                out@.len() == done + (off - range.start),
                forall|i: int| 0 <= i < out@.len() ==> #[trigger] out@[i] == user_byte(
                    mem@,
                    root,
                    start + i,
                ),
            decreases range.end - off,
        {
            let b = mem.read_byte(range.ppn, off);
            proof {
                let va = start + out@.len();
                assert(va == page + off);
                assert(va / 4096 == page / 4096);
                assert(va % 4096 == off);
            }
            out.push(b);
            off += 1;
        }
        k += 1;
    }
    proof {
        if len > 0 {
            let last = (start + len - 1) / 4096;
            assert(ranges@.len() == last - first + 1);
        }
    }
    Some(out)
}

/// Writes `data` to the virtual addresses from `start` on of the address
/// space named by `token`. The result says whether the addresses can be
/// reached; where they cannot, nothing is written. Only the bytes written
/// change.
#[verifier::rlimit(50)]
pub fn write_user_bytes(mem: &mut PhysMemory, token: u64, start: u64, data: &[u8]) -> (ok: bool)
    requires
        old(mem).wf(),
        walkable(old(mem)@, token as int % PPN_LIMIT as int),
        data@.len() <= 4096,
    ensures
        final(mem).wf(),
        final(mem).spec_base() == old(mem).spec_base(),
        final(mem).spec_end() == old(mem).spec_end(),
        final(mem)@.dom() == old(mem)@.dom(),
        ok == user_range_ok(
            old(mem)@,
            token as int % PPN_LIMIT as int,
            start,
            data@.len() as u64,
        ),
        !ok ==> final(mem)@ == old(mem)@,
        ok ==> forall|i: int|
            0 <= i < data@.len() ==> #[trigger] page_byte(
                final(mem)@[user_page(old(mem)@, token as int % PPN_LIMIT as int, start + i)],
                (start + i) % 4096,
            ) == data@[i],
        forall|p: int|
            old(mem)@.dom().contains(p) && (forall|i: int|
                0 <= i < data@.len() ==> p != #[trigger] user_page(
                    old(mem)@,
                    token as int % PPN_LIMIT as int,
                    start + i,
                )) ==> #[trigger] final(mem)@[p] == old(mem)@[p],
{
    let n: usize = data.len();
    if !check_user_range(mem, token, start, n as u64) {
        return false;
    }
    let ghost root = token as int % PPN_LIMIT as int;
    let ghost m0 = mem@;
    let page_table = PageTable::from_token(token);
    let first = page_table.translate(mem, VirtPageNum(start / 4096));
    let last_vpn: u64 = if n == 0 {
        start / 4096
    } else {
        (start + (n as u64 - 1)) / 4096
    };
    let second = page_table.translate(mem, VirtPageNum(last_vpn));
    if n == 0 {
        return true;
    }
    let first_ppn = first.unwrap().ppn();
    let second_ppn = second.unwrap().ppn();
    let mut i: usize = 0;
    while i < n
        invariant
            mem.wf(),
            mem.spec_base() == old(mem).spec_base(),
            mem.spec_end() == old(mem).spec_end(),
            mem@.dom() == m0.dom(),
            n == data@.len(),
            0 < n <= 4096,
            i <= n,
            start + n <= VA_LIMIT,
            last_vpn == (start + n - 1) / 4096,
            first_ppn.0 == user_page(m0, root, start as int),
            second_ppn.0 == user_page(m0, root, start + n - 1),
            m0.dom().contains(first_ppn.0 as int),
            m0.dom().contains(second_ppn.0 as int),
            forall|j: int|
                0 <= j < i ==> #[trigger] page_byte(
                    mem@[user_page(m0, root, start + j)],
                    (start + j) % 4096,
                ) == data@[j],
            forall|p: int|
                m0.dom().contains(p) && p != first_ppn.0 && p != second_ppn.0 ==> #[trigger] mem@[p]
                    == m0[p],
        decreases n - i,
    {
        let va: u64 = start + i as u64;
        let ppn = if va / 4096 == start / 4096 {
            first_ppn
        } else {
            second_ppn
        };
        let ghost m1 = mem@;
        proof {
            assert(va / 4096 == start / 4096 || va / 4096 == last_vpn);
            assert(ppn.0 == user_page(m0, root, va as int));
        }
        mem.write_byte(ppn, (va % 4096) as usize, data[i]);
        proof {
            assert forall|j: int| 0 <= j < i + 1 implies #[trigger] page_byte(
                mem@[user_page(m0, root, start + j)],
                (start + j) % 4096,
            ) == data@[j] by {
                if j < i {
                    assert(page_byte(m1[user_page(m0, root, start + j)], (start + j) % 4096)
                        == data@[j]);
                    assert((start + j) % 4096 != (start + i) % 4096);
                    let q = user_page(m0, root, start + j);
                    assert((start + j) / 4096 == start as int / 4096 || (start + j) / 4096
                        == last_vpn);
                    assert(q == first_ppn.0 || q == second_ppn.0);
                    assert(m0.dom().contains(q));
                }
            }
            assert forall|p: int|
                m0.dom().contains(p) && p != first_ppn.0 && p != second_ppn.0 implies #[trigger] mem@[p]
                == m0[p] by {
                assert(m1[p] == m0[p]);
            }
        }
        i += 1;
    }
    proof {
        assert forall|p: int|
            m0.dom().contains(p) && (forall|i: int|
                0 <= i < data@.len() ==> p != #[trigger] user_page(
                    m0,
                    root,
                    start + i,
                )) implies #[trigger] mem@[p] == m0[p] by {
            assert(p != user_page(m0, root, start + 0));
            assert(p != user_page(m0, root, start + (n - 1)));
        }
    }
    true
}

} // verus!
