use kernel_core::mm::address::{PhysPageNum, VirtPageNum};
use kernel_core::mm::frame_allocator::StackFrameAllocator;
use kernel_core::mm::memory::PhysMemory;
use kernel_core::mm::page_table::{translated_byte_buffer, PageTable, PhysRange};
use kernel_core::mm::pte::{
    PTEFlags, PageTableEntry, PTE_A, PTE_D, PTE_G, PTE_R, PTE_U, PTE_V, PTE_W, PTE_X,
};

fn machine(frames: usize) -> (StackFrameAllocator, PhysMemory) {
    let mem = PhysMemory::new(PhysPageNum(0x100), frames);
    let mut a = StackFrameAllocator::new();
    a.init(PhysPageNum(0x100), PhysPageNum(0x100 + frames as u64));
    (a, mem)
}

#[test]
fn entry_holds_page_number_and_flags() {
    let e = PageTableEntry::new(PhysPageNum(0x80200), PTEFlags::from_bits(PTE_V | PTE_R | PTE_X));
    assert_eq!(e.bits, (0x80200 << 10) | 0b1011);
    assert_eq!(e.ppn(), PhysPageNum(0x80200));
    assert_eq!(e.flags(), PTEFlags::from_bits(0b1011));
    assert!(e.is_valid());
    assert!(e.readable());
    assert!(!e.writable());
    assert!(e.executable());
}

#[test]
fn entry_with_the_largest_page_number() {
    let e = PageTableEntry::new(PhysPageNum(0xfff_ffff_ffff), PTEFlags::from_bits(0xff));
    assert_eq!(e.bits, 0x3f_ffff_ffff_fcff);
    assert_eq!(e.ppn(), PhysPageNum(0xfff_ffff_ffff));
    assert_eq!(e.flags().bits(), 0xff);
}

#[test]
fn bits_above_the_page_number_are_ignored() {
    let e = PageTableEntry { bits: 0xffc0_0000_0000_0000 | (5 << 10) | 1 };
    assert_eq!(e.ppn(), PhysPageNum(5));
    assert!(e.is_valid());
}

#[test]
fn empty_entry_is_absent() {
    let e = PageTableEntry::empty();
    assert_eq!(e.bits, 0);
    assert!(!e.is_valid());
    assert!(!e.readable());
    assert_eq!(e.ppn(), PhysPageNum(0));
}

#[test]
fn flags_are_one_bit_each() {
    assert_eq!(
        [PTE_V, PTE_R, PTE_W, PTE_X, PTE_U, PTE_G, PTE_A, PTE_D],
        [1, 2, 4, 8, 16, 32, 64, 128]
    );
    let f = PTEFlags::empty().with(PTE_R).with(PTE_W);
    assert_eq!(f.bits(), 6);
    assert!(f.contains(PTE_R));
    assert!(f.contains(PTE_R | PTE_W));
    assert!(!f.contains(PTE_R | PTE_X));
    assert!(!f.contains(PTE_V));
}

#[test]
fn translate_returns_what_map_was_given() {
    let (mut a, mut mem) = machine(64);
    let mut pt = PageTable::new(&mut a, &mut mem);
    let flags = PTEFlags::from_bits(PTE_R | PTE_W | PTE_U);
    pt.map(&mut a, &mut mem, VirtPageNum(0x12345), PhysPageNum(0x777), flags);
    let e = pt.translate(&mem, VirtPageNum(0x12345)).unwrap();
    assert_eq!(e.ppn(), PhysPageNum(0x777));
    assert_eq!(e.flags(), PTEFlags::from_bits(PTE_R | PTE_W | PTE_U | PTE_V));
    assert!(e.is_valid() && e.readable() && e.writable() && !e.executable());
}

#[test]
fn pages_that_were_never_mapped_translate_to_nothing() {
    let (mut a, mut mem) = machine(64);
    let mut pt = PageTable::new(&mut a, &mut mem);
    assert!(pt.translate(&mem, VirtPageNum(0)).is_none());
    pt.map(&mut a, &mut mem, VirtPageNum(0x200), PhysPageNum(1), PTEFlags::from_bits(PTE_R));
    // the same node of the last level, another index
    assert!(pt.translate(&mem, VirtPageNum(0x201)).is_none());
    // the same node of the second level, another node of the last level
    assert!(pt.translate(&mem, VirtPageNum(0x400)).is_none());
    // another entry of the root
    assert!(pt.translate(&mem, VirtPageNum(0x40200)).is_none());
    assert!(pt.translate(&mem, VirtPageNum(0x7ff_ffff)).is_none());
}

#[test]
fn mappings_do_not_disturb_each_other() {
    let (mut a, mut mem) = machine(128);
    let mut pt = PageTable::new(&mut a, &mut mem);
    let pages: [u64; 8] = [0, 1, 511, 512, 0x3ffff, 0x40000, 0x7ff_fffe, 0x7ff_ffff];
    for (i, v) in pages.iter().enumerate() {
        pt.map(
            &mut a,
            &mut mem,
            VirtPageNum(*v),
            PhysPageNum(0x9000 + i as u64),
            PTEFlags::from_bits(PTE_R | ((i as u8 % 2) * PTE_W)),
        );
    }
    for (i, v) in pages.iter().enumerate() {
        let e = pt.translate(&mem, VirtPageNum(*v)).unwrap();
        assert_eq!(e.ppn(), PhysPageNum(0x9000 + i as u64));
        assert_eq!(e.writable(), i % 2 == 1);
    }
    pt.unmap(&mut mem, VirtPageNum(512));
    for (i, v) in pages.iter().enumerate() {
        let e = pt.translate(&mem, VirtPageNum(*v));
        if *v == 512 {
            assert!(e.is_none());
        } else {
            assert_eq!(e.unwrap().ppn(), PhysPageNum(0x9000 + i as u64));
        }
    }
}

#[test]
fn map_makes_the_nodes_that_are_missing() {
    let (mut a, mut mem) = machine(64);
    let mut pt = PageTable::new(&mut a, &mut mem);
    assert_eq!(a.free_count(), 63);
    pt.map(&mut a, &mut mem, VirtPageNum(0), PhysPageNum(1), PTEFlags::from_bits(PTE_R));
    assert_eq!(a.free_count(), 61);
    pt.map(&mut a, &mut mem, VirtPageNum(1), PhysPageNum(2), PTEFlags::from_bits(PTE_R));
    assert_eq!(a.free_count(), 61);
    pt.map(&mut a, &mut mem, VirtPageNum(512), PhysPageNum(3), PTEFlags::from_bits(PTE_R));
    assert_eq!(a.free_count(), 60);
    pt.map(&mut a, &mut mem, VirtPageNum(0x40000), PhysPageNum(4), PTEFlags::from_bits(PTE_R));
    assert_eq!(a.free_count(), 58);
}

#[test]
fn unmap_keeps_the_nodes_and_a_page_can_be_mapped_again() {
    let (mut a, mut mem) = machine(64);
    let mut pt = PageTable::new(&mut a, &mut mem);
    pt.map(&mut a, &mut mem, VirtPageNum(77), PhysPageNum(1), PTEFlags::from_bits(PTE_R));
    let free = a.free_count();
    pt.unmap(&mut mem, VirtPageNum(77));
    assert_eq!(a.free_count(), free);
    assert!(pt.translate(&mem, VirtPageNum(77)).is_none());
    pt.map(&mut a, &mut mem, VirtPageNum(77), PhysPageNum(9), PTEFlags::from_bits(PTE_X));
    assert_eq!(a.free_count(), free);
    let e = pt.translate(&mem, VirtPageNum(77)).unwrap();
    assert_eq!(e.ppn(), PhysPageNum(9));
    assert!(e.executable() && !e.readable());
}

#[test]
fn links_between_nodes_carry_the_valid_flag_alone() {
    let (mut a, mut mem) = machine(64);
    let mut pt = PageTable::new(&mut a, &mut mem);
    let root = pt.root_ppn();
    pt.map(&mut a, &mut mem, VirtPageNum(0), PhysPageNum(1), PTEFlags::from_bits(PTE_R | PTE_U));
    let link = PageTableEntry { bits: mem.read_word(root, 0) };
    assert_eq!(link.flags(), PTEFlags::from_bits(PTE_V));
    let second = PageTableEntry { bits: mem.read_word(link.ppn(), 0) };
    assert_eq!(second.flags(), PTEFlags::from_bits(PTE_V));
    let leaf = PageTableEntry { bits: mem.read_word(second.ppn(), 0) };
    assert_eq!(leaf.flags(), PTEFlags::from_bits(PTE_V | PTE_R | PTE_U));
    assert_eq!(leaf.ppn(), PhysPageNum(1));
}

#[test]
fn token_names_the_root() {
    let (mut a, mut mem) = machine(8);
    let pt = PageTable::new(&mut a, &mut mem);
    assert_eq!(pt.root_ppn(), PhysPageNum(0x100));
    assert_eq!(pt.token(), 0x8000_0000_0000_0100);
    let view = PageTable::from_token(pt.token());
    assert_eq!(view.root_ppn(), PhysPageNum(0x100));
}

#[test]
fn table_from_a_token_reads_the_same_mappings() {
    let (mut a, mut mem) = machine(64);
    let mut pt = PageTable::new(&mut a, &mut mem);
    pt.map(&mut a, &mut mem, VirtPageNum(5), PhysPageNum(0x1234), PTEFlags::from_bits(PTE_R));
    let view = PageTable::from_token(pt.token());
    assert_eq!(view.translate(&mem, VirtPageNum(5)).unwrap().ppn(), PhysPageNum(0x1234));
    assert!(view.translate(&mem, VirtPageNum(6)).is_none());
}

#[test]
fn release_gives_every_node_back() {
    let (mut a, mut mem) = machine(64);
    let mut pt = PageTable::new(&mut a, &mut mem);
    pt.map(&mut a, &mut mem, VirtPageNum(0), PhysPageNum(1), PTEFlags::from_bits(PTE_R));
    pt.map(&mut a, &mut mem, VirtPageNum(0x40000), PhysPageNum(1), PTEFlags::from_bits(PTE_R));
    assert_eq!(a.free_count(), 59);
    pt.release(&mut a);
    assert_eq!(a.free_count(), 64);
}

#[test]
fn byte_buffer_is_cut_at_page_ends() {
    let (mut a, mut mem) = machine(64);
    let mut pt = PageTable::new(&mut a, &mut mem);
    let flags = PTEFlags::from_bits(PTE_R | PTE_U);
    pt.map(&mut a, &mut mem, VirtPageNum(0x10), PhysPageNum(0x120), flags);
    pt.map(&mut a, &mut mem, VirtPageNum(0x11), PhysPageNum(0x130), flags);
    pt.map(&mut a, &mut mem, VirtPageNum(0x12), PhysPageNum(0x125), flags);
    let token = pt.token();
    let v = translated_byte_buffer(&mem, token, 0x10ff0, 0x1020);
    assert_eq!(
        v,
        vec![
            PhysRange { ppn: PhysPageNum(0x120), start: 0xff0, end: 4096 },
            PhysRange { ppn: PhysPageNum(0x130), start: 0, end: 4096 },
            PhysRange { ppn: PhysPageNum(0x125), start: 0, end: 0x10 },
        ]
    );
    let v = translated_byte_buffer(&mem, token, 0x10010, 0x20);
    assert_eq!(v, vec![PhysRange { ppn: PhysPageNum(0x120), start: 0x10, end: 0x30 }]);
    let v = translated_byte_buffer(&mem, token, 0x10000, 0x2000);
    assert_eq!(
        v,
        vec![
            PhysRange { ppn: PhysPageNum(0x120), start: 0, end: 4096 },
            PhysRange { ppn: PhysPageNum(0x130), start: 0, end: 4096 },
        ]
    );
    assert!(translated_byte_buffer(&mem, token, 0x10000, 0).is_empty());
}
