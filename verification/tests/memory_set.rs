use kernel_core::config::{TRAMPOLINE, TRAP_CONTEXT};
use kernel_core::mm::address::{PhysPageNum, VirtAddr, VirtPageNum};
use kernel_core::mm::area::{
    frames_needed, MapArea, MapPermission, MapType, MAP_R, MAP_U, MAP_W, MAP_X,
};
use kernel_core::mm::elf::{PF_R, PF_W, PF_X};
use kernel_core::mm::frame_allocator::StackFrameAllocator;
use kernel_core::mm::memory::PhysMemory;
use kernel_core::mm::memory_set::{image_frames_needed, segment_perm, KernelLayout, MemorySet};
use kernel_core::mm::pte::{PTEFlags, PTE_R, PTE_U, PTE_V, PTE_W, PTE_X};
use kernel_core::mm::user::read_user_bytes;

fn machine(frames: usize) -> (StackFrameAllocator, PhysMemory) {
    let mem = PhysMemory::new(PhysPageNum(0x100), frames);
    let mut a = StackFrameAllocator::new();
    a.init(PhysPageNum(0x100), PhysPageNum(0x100 + frames as u64));
    (a, mem)
}

fn put(out: &mut Vec<u8>, at: usize, bytes: &[u8]) {
    out[at..at + bytes.len()].copy_from_slice(bytes);
}

/// An image of one segment per entry of `segments`: address, flags, bytes
/// and size in memory.
fn image(entry: u64, segments: &[(u64, u32, Vec<u8>, u64)]) -> Vec<u8> {
    let mut out = vec![0u8; 64 + 56 * segments.len()];
    put(&mut out, 0, &[0x7f, 0x45, 0x4c, 0x46, 2, 1, 1, 0]);
    put(&mut out, 24, &entry.to_le_bytes());
    put(&mut out, 32, &64u64.to_le_bytes());
    put(&mut out, 54, &56u16.to_le_bytes());
    put(&mut out, 56, &(segments.len() as u16).to_le_bytes());
    for (i, (vaddr, flags, bytes, mem_size)) in segments.iter().enumerate() {
        let at = 64 + 56 * i;
        let offset = out.len() as u64;
        put(&mut out, at, &1u32.to_le_bytes());
        put(&mut out, at + 4, &flags.to_le_bytes());
        put(&mut out, at + 8, &offset.to_le_bytes());
        put(&mut out, at + 16, &vaddr.to_le_bytes());
        put(&mut out, at + 32, &(bytes.len() as u64).to_le_bytes());
        put(&mut out, at + 40, &mem_size.to_le_bytes());
        out.extend_from_slice(bytes);
    }
    out
}

#[test]
fn bare_space_maps_nothing() {
    let (mut a, mut mem) = machine(16);
    let ms = MemorySet::new_bare(&mut a, &mut mem);
    assert_eq!(a.free_count(), 15);
    assert_eq!(ms.token(), 0x8000_0000_0000_0100);
    assert!(ms.translate(&mem, VirtPageNum(0)).is_none());
    assert!(ms.translate(&mem, VirtPageNum(0x7ff_ffff)).is_none());
}

#[test]
fn framed_area_gets_a_zeroed_page_for_each_page() {
    let (mut a, mut mem) = machine(64);
    let mut ms = MemorySet::new_bare(&mut a, &mut mem);
    // a frame with old contents, to see that it comes back zeroed
    let p = a.allocate().unwrap();
    mem.write_word(p, 5, 55);
    a.dealloc(p);
    ms.insert_framed_area(
        &mut a,
        &mut mem,
        VirtAddr(0x5000),
        VirtAddr(0x7001),
        MapPermission::from_bits(MAP_R | MAP_W | MAP_U),
    );
    let mut seen = Vec::new();
    for v in 5..8 {
        let e = ms.translate(&mem, VirtPageNum(v)).unwrap();
        assert_eq!(e.flags(), PTEFlags::from_bits(PTE_V | PTE_R | PTE_W | PTE_U));
        assert!(a.is_allocated(e.ppn()));
        assert!(!seen.contains(&e.ppn()));
        seen.push(e.ppn());
        for i in 0..512 {
            assert_eq!(mem.read_word(e.ppn(), i), 0);
        }
    }
    assert!(ms.translate(&mem, VirtPageNum(4)).is_none());
    assert!(ms.translate(&mem, VirtPageNum(8)).is_none());
    // root, two nodes, three pages
    assert_eq!(a.free_count(), 64 - 6);
}

#[test]
fn mmap_twice_then_munmap_twice() {
    let (mut a, mut mem) = machine(64);
    let mut ms = MemorySet::new_bare(&mut a, &mut mem);
    let perm = MapPermission::from_bits(MAP_U | MAP_R | MAP_W);
    assert_eq!(ms.mmap(&mut a, &mut mem, VirtAddr(4096), VirtAddr(8192), perm), 0);
    let free = a.free_count();
    assert_eq!(ms.mmap(&mut a, &mut mem, VirtAddr(4096), VirtAddr(8192), perm), -1);
    assert_eq!(a.free_count(), free);
    assert!(ms.translate(&mem, VirtPageNum(1)).is_some());
    assert_eq!(ms.munmap(&mut a, &mut mem, VirtAddr(4096), VirtAddr(8192)), 0);
    assert_eq!(a.free_count(), free + 1);
    assert!(ms.translate(&mem, VirtPageNum(1)).is_none());
    assert_eq!(ms.munmap(&mut a, &mut mem, VirtAddr(4096), VirtAddr(8192)), -1);
    assert_eq!(a.free_count(), free + 1);
}

#[test]
fn mmap_fails_when_one_page_of_the_range_is_mapped() {
    let (mut a, mut mem) = machine(64);
    let mut ms = MemorySet::new_bare(&mut a, &mut mem);
    let perm = MapPermission::from_bits(MAP_U | MAP_R);
    assert_eq!(ms.mmap(&mut a, &mut mem, VirtAddr(0x3000), VirtAddr(0x4000), perm), 0);
    let free = a.free_count();
    assert_eq!(ms.mmap(&mut a, &mut mem, VirtAddr(0x1000), VirtAddr(0x3001), perm), -1);
    assert_eq!(ms.mmap(&mut a, &mut mem, VirtAddr(0x3fff), VirtAddr(0x6000), perm), -1);
    assert_eq!(a.free_count(), free);
    assert!(ms.translate(&mem, VirtPageNum(1)).is_none());
    assert!(ms.translate(&mem, VirtPageNum(4)).is_none());
    assert_eq!(ms.mmap(&mut a, &mut mem, VirtAddr(0x1000), VirtAddr(0x3000), perm), 0);
    assert_eq!(ms.mmap(&mut a, &mut mem, VirtAddr(0x4000), VirtAddr(0x4001), perm), 0);
}

#[test]
fn mmap_of_nothing_succeeds() {
    let (mut a, mut mem) = machine(64);
    let mut ms = MemorySet::new_bare(&mut a, &mut mem);
    let perm = MapPermission::from_bits(MAP_U | MAP_R);
    let free = a.free_count();
    assert_eq!(ms.mmap(&mut a, &mut mem, VirtAddr(0x3000), VirtAddr(0x3000), perm), 0);
    assert_eq!(a.free_count(), free);
    assert!(ms.translate(&mem, VirtPageNum(3)).is_none());
    assert_eq!(ms.munmap(&mut a, &mut mem, VirtAddr(0x3000), VirtAddr(0x3000)), 0);
}

#[test]
fn munmap_takes_pages_out_of_the_middle_of_a_region() {
    let (mut a, mut mem) = machine(64);
    let mut ms = MemorySet::new_bare(&mut a, &mut mem);
    let perm = MapPermission::from_bits(MAP_U | MAP_R | MAP_W);
    assert_eq!(ms.mmap(&mut a, &mut mem, VirtAddr(0x10000), VirtAddr(0x18000), perm), 0);
    let before: Vec<PhysPageNum> =
        (0x10..0x18).map(|v| ms.translate(&mem, VirtPageNum(v)).unwrap().ppn()).collect();
    let free = a.free_count();
    assert_eq!(ms.munmap(&mut a, &mut mem, VirtAddr(0x12000), VirtAddr(0x15000)), 0);
    assert_eq!(a.free_count(), free + 3);
    for v in 0x10..0x18u64 {
        let e = ms.translate(&mem, VirtPageNum(v));
        if (0x12..0x15).contains(&v) {
            assert!(e.is_none());
            assert!(!a.is_allocated(before[(v - 0x10) as usize]));
        } else {
            assert_eq!(e.unwrap().ppn(), before[(v - 0x10) as usize]);
            assert!(a.is_allocated(before[(v - 0x10) as usize]));
        }
    }
    // what is left can be unmapped piece by piece, the gap cannot
    assert_eq!(ms.munmap(&mut a, &mut mem, VirtAddr(0x11000), VirtAddr(0x13000)), -1);
    assert_eq!(ms.munmap(&mut a, &mut mem, VirtAddr(0x10000), VirtAddr(0x12000)), 0);
    assert_eq!(ms.munmap(&mut a, &mut mem, VirtAddr(0x15000), VirtAddr(0x18000)), 0);
    assert_eq!(a.free_count(), free + 8);
    // and the whole range can be mapped again
    assert_eq!(ms.mmap(&mut a, &mut mem, VirtAddr(0x10000), VirtAddr(0x18000), perm), 0);
}

#[test]
fn munmap_reaches_over_several_regions() {
    let (mut a, mut mem) = machine(64);
    let mut ms = MemorySet::new_bare(&mut a, &mut mem);
    let perm = MapPermission::from_bits(MAP_U | MAP_R);
    assert_eq!(ms.mmap(&mut a, &mut mem, VirtAddr(0x2000), VirtAddr(0x4000), perm), 0);
    assert_eq!(ms.mmap(&mut a, &mut mem, VirtAddr(0x4000), VirtAddr(0x5000), perm), 0);
    assert_eq!(ms.mmap(&mut a, &mut mem, VirtAddr(0x5000), VirtAddr(0x8000), perm), 0);
    assert_eq!(ms.munmap(&mut a, &mut mem, VirtAddr(0x3000), VirtAddr(0x8001)), -1);
    assert_eq!(ms.munmap(&mut a, &mut mem, VirtAddr(0x3000), VirtAddr(0x7000)), 0);
    assert!(ms.translate(&mem, VirtPageNum(2)).is_some());
    for v in 3..7 {
        assert!(ms.translate(&mem, VirtPageNum(v)).is_none());
    }
    assert!(ms.translate(&mem, VirtPageNum(7)).is_some());
}

#[test]
fn release_gives_every_page_back() {
    let (mut a, mut mem) = machine(64);
    let mut ms = MemorySet::new_bare(&mut a, &mut mem);
    let perm = MapPermission::from_bits(MAP_U | MAP_R);
    ms.mmap(&mut a, &mut mem, VirtAddr(0x2000), VirtAddr(0x6000), perm);
    ms.mmap(&mut a, &mut mem, VirtAddr(0x4000_0000), VirtAddr(0x4000_1000), perm);
    ms.munmap(&mut a, &mut mem, VirtAddr(0x3000), VirtAddr(0x4000));
    assert!(a.free_count() < 64);
    ms.release(&mut a);
    assert_eq!(a.free_count(), 64);
}

#[test]
fn trampoline_is_mapped_for_reading_and_execution() {
    let (mut a, mut mem) = machine(64);
    let mut ms = MemorySet::new_bare(&mut a, &mut mem);
    ms.map_trampoline(&mut a, &mut mem, PhysPageNum(0x80201));
    let e = ms.translate(&mem, VirtPageNum(TRAMPOLINE / 4096)).unwrap();
    assert_eq!(e.ppn(), PhysPageNum(0x80201));
    assert_eq!(e.flags(), PTEFlags::from_bits(PTE_V | PTE_R | PTE_X));
    assert!(ms.translate(&mem, VirtPageNum(TRAP_CONTEXT / 4096)).is_none());
}

#[test]
fn segment_permissions_follow_the_flags() {
    assert_eq!(segment_perm(0), MapPermission::from_bits(MAP_U));
    assert_eq!(segment_perm(PF_R), MapPermission::from_bits(MAP_U | MAP_R));
    assert_eq!(segment_perm(PF_W), MapPermission::from_bits(MAP_U | MAP_W));
    assert_eq!(segment_perm(PF_X), MapPermission::from_bits(MAP_U | MAP_X));
    assert_eq!(segment_perm(7), MapPermission::from_bits(MAP_U | MAP_R | MAP_W | MAP_X));
    assert_eq!(segment_perm(0xffff_fff8), MapPermission::from_bits(MAP_U));
    assert!(segment_perm(PF_R).contains(MAP_R));
    assert!(!segment_perm(PF_R).contains(MAP_W));
}

#[test]
fn image_is_loaded_at_its_addresses() {
    let (mut a, mut mem) = machine(128);
    let text: Vec<u8> = (0..5000u32).map(|i| (i % 251) as u8).collect();
    let data: Vec<u8> = vec![0xaa, 0xbb, 0xcc];
    let elf = image(
        0x10040,
        &[(0x10000, PF_R | PF_X, text.clone(), 5000), (0x12ff0, PF_R | PF_W, data.clone(), 0x30)],
    );
    let (ms, user_sp, entry) = MemorySet::from_elf(&mut a, &mut mem, &elf, PhysPageNum(0x80201)).unwrap();
    assert_eq!(entry, 0x10040);
    // the segments end at page 0x14; one guard page, two pages of stack
    assert_eq!(user_sp, 0x17000);
    let token = ms.token();
    assert_eq!(read_user_bytes(&mem, token, 0x10000, 5000).unwrap(), text);
    // the rest of the segment's last page is zero
    assert_eq!(read_user_bytes(&mem, token, 0x10000 + 5000, 8192 - 5000).unwrap(), vec![0u8; 3192]);
    assert_eq!(read_user_bytes(&mem, token, 0x12ff0, 3).unwrap(), data);
    assert_eq!(read_user_bytes(&mem, token, 0x12000, 0xff0).unwrap(), vec![0u8; 0xff0]);
    assert_eq!(read_user_bytes(&mem, token, 0x12ff3, 0x100d).unwrap(), vec![0u8; 0x100d]);
    let flags = |v: u64| ms.translate(&mem, VirtPageNum(v)).map(|e| e.flags().bits());
    assert_eq!(flags(0x0f), None);
    assert_eq!(flags(0x10), Some(PTE_V | PTE_U | PTE_R | PTE_X));
    assert_eq!(flags(0x11), Some(PTE_V | PTE_U | PTE_R | PTE_X));
    assert_eq!(flags(0x12), Some(PTE_V | PTE_U | PTE_R | PTE_W));
    assert_eq!(flags(0x13), Some(PTE_V | PTE_U | PTE_R | PTE_W));
    // the guard page
    assert_eq!(flags(0x14), None);
    assert_eq!(flags(0x15), Some(PTE_V | PTE_U | PTE_R | PTE_W));
    assert_eq!(flags(0x16), Some(PTE_V | PTE_U | PTE_R | PTE_W));
    assert_eq!(flags(0x17), None);
    assert_eq!(flags(TRAP_CONTEXT / 4096), Some(PTE_V | PTE_R | PTE_W));
    assert_eq!(flags(TRAMPOLINE / 4096), Some(PTE_V | PTE_R | PTE_X));
    assert_eq!(
        ms.translate(&mem, VirtPageNum(TRAMPOLINE / 4096)).unwrap().ppn(),
        PhysPageNum(0x80201)
    );
}

#[test]
fn image_without_segments_gets_stack_and_trap_context() {
    let (mut a, mut mem) = machine(64);
    let elf = image(0, &[]);
    let (ms, user_sp, entry) = MemorySet::from_elf(&mut a, &mut mem, &elf, PhysPageNum(7)).unwrap();
    assert_eq!((user_sp, entry), (0x3000, 0));
    assert!(ms.translate(&mem, VirtPageNum(0)).is_none());
    assert!(ms.translate(&mem, VirtPageNum(1)).is_some());
    assert!(ms.translate(&mem, VirtPageNum(2)).is_some());
    assert!(ms.translate(&mem, VirtPageNum(3)).is_none());
}

#[test]
fn image_that_cannot_be_loaded_changes_nothing() {
    let (mut a, mut mem) = machine(64);
    let mut elf = image(0, &[(0x10000, PF_R, vec![1, 2, 3], 3)]);
    elf[0] = 0;
    assert!(MemorySet::from_elf(&mut a, &mut mem, &elf, PhysPageNum(7)).is_none());
    assert_eq!(a.free_count(), 64);
}

#[test]
fn kernel_space_maps_the_kernel_to_itself() {
    let (mut a, mut mem) = machine(64);
    let layout = KernelLayout {
        stext: 0x8020_0000,
        etext: 0x8020_3000,
        srodata: 0x8020_3000,
        erodata: 0x8020_4000,
        sdata: 0x8020_4000,
        edata: 0x8020_5000,
        sbss_with_stack: 0x8020_5000,
        ebss: 0x8021_5000,
        ekernel: 0x8021_5000,
        memory_end: 0x8080_0000,
    };
    assert!(layout.check());
    let ks = MemorySet::new_kernel(&mut a, &mut mem, &layout, PhysPageNum(0x80201));
    let look = |v: u64| ks.translate(&mem, VirtPageNum(v)).map(|e| (e.ppn().0, e.flags().bits()));
    assert_eq!(look(0x801ff), None);
    assert_eq!(look(0x80200), Some((0x80200, PTE_V | PTE_R | PTE_X)));
    assert_eq!(look(0x80202), Some((0x80202, PTE_V | PTE_R | PTE_X)));
    assert_eq!(look(0x80203), Some((0x80203, PTE_V | PTE_R)));
    assert_eq!(look(0x80204), Some((0x80204, PTE_V | PTE_R | PTE_W)));
    assert_eq!(look(0x80205), Some((0x80205, PTE_V | PTE_R | PTE_W)));
    assert_eq!(look(0x80214), Some((0x80214, PTE_V | PTE_R | PTE_W)));
    assert_eq!(look(0x80215), Some((0x80215, PTE_V | PTE_R | PTE_W)));
    assert_eq!(look(0x807ff), Some((0x807ff, PTE_V | PTE_R | PTE_W)));
    assert_eq!(look(0x80800), None);
    assert_eq!(look(TRAMPOLINE / 4096), Some((0x80201, PTE_V | PTE_R | PTE_X)));
    // the root, two nodes for the trampoline, one node of the second level
    // and three nodes of the last level for the kernel
    assert_eq!(a.free_count(), 64 - 7);
}

#[test]
fn kernel_layout_is_checked() {
    let good = KernelLayout {
        stext: 0x1000,
        etext: 0x2000,
        srodata: 0x2000,
        erodata: 0x2000,
        sdata: 0x3000,
        edata: 0x4000,
        sbss_with_stack: 0x4000,
        ebss: 0x5000,
        ekernel: 0x5000,
        memory_end: 0x9000,
    };
    assert!(good.check());
    assert!(!KernelLayout { etext: 0x2001, ..good }.check());
    assert!(!KernelLayout { sdata: 0x1000, ..good }.check());
    assert!(!KernelLayout { memory_end: TRAP_CONTEXT + 4096, ..good }.check());
    assert!(KernelLayout { memory_end: TRAP_CONTEXT, ..good }.check());
}

#[test]
fn area_knows_its_range() {
    let area = MapArea::new(
        VirtAddr(0x1234),
        VirtAddr(0x5001),
        MapType::Framed,
        MapPermission::from_bits(MAP_R),
    );
    assert_eq!(area.start(), VirtPageNum(1));
    assert_eq!(area.end(), VirtPageNum(6));
    assert_eq!(area.permission(), MapPermission::from_bits(MAP_R));
    assert_eq!(area.map_type(), MapType::Framed);
}

#[test]
fn enough_frames_for_a_range() {
    // nothing to map
    assert_eq!(frames_needed(VirtPageNum(5), VirtPageNum(5), true), 0);
    assert_eq!(frames_needed(VirtPageNum(6), VirtPageNum(5), true), 0);
    // one page: the page and a node of each level below the root
    assert_eq!(frames_needed(VirtPageNum(5), VirtPageNum(6), true), 3);
    assert_eq!(frames_needed(VirtPageNum(5), VirtPageNum(6), false), 2);
    // a range across the end of a node of the last level
    assert_eq!(frames_needed(VirtPageNum(510), VirtPageNum(514), true), 4 + 2 + 1);
    // a range across the end of a node of the second level
    assert_eq!(frames_needed(VirtPageNum(0x3ffff), VirtPageNum(0x40001), false), 2 + 2);
    // the memory behind a kernel
    assert_eq!(frames_needed(VirtPageNum(0x80215), VirtPageNum(0x80800), false), 3 + 1);
}

#[test]
fn enough_frames_for_an_image() {
    // the root and the trampoline, the stack, the trap context
    assert_eq!(image_frames_needed(&image(0, &[])), 3 + 4 + 3);
    let elf = image(0, &[(0x10000, PF_R, vec![1; 10], 0x2001), (0x200000, PF_W, vec![], 1)]);
    assert_eq!(image_frames_needed(&elf), 3 + (3 + 2) + (1 + 2) + 4 + 3);
    let mut bad = elf.clone();
    bad[4] = 1;
    assert_eq!(image_frames_needed(&bad), 0);
    // what loading takes is no more than that
    let (mut a, mut mem) = machine(64);
    let need = image_frames_needed(&elf);
    let free = a.free_count();
    assert!(MemorySet::from_elf(&mut a, &mut mem, &elf, PhysPageNum(7)).is_some());
    assert!(free - a.free_count() <= need);
    // root; trampoline and trap context under two nodes; the first segment
    // of three pages, the stack and the second segment under three nodes
    assert_eq!(free - a.free_count(), 1 + 3 + (3 + 2) + 2 + (1 + 1));
}
