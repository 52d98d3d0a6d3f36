use kernel_core::mm::address::PhysPageNum;
use kernel_core::mm::memory::PhysMemory;

#[test]
fn memory_starts_as_zeroes() {
    let mem = PhysMemory::new(PhysPageNum(0x80), 3);
    assert_eq!(mem.base(), PhysPageNum(0x80));
    assert_eq!(mem.end(), PhysPageNum(0x83));
    assert!(mem.contains(PhysPageNum(0x80)));
    assert!(mem.contains(PhysPageNum(0x82)));
    assert!(!mem.contains(PhysPageNum(0x83)));
    assert!(!mem.contains(PhysPageNum(0x7f)));
    for p in 0x80..0x83 {
        for i in 0..512 {
            assert_eq!(mem.read_word(PhysPageNum(p), i), 0);
        }
    }
}

#[test]
fn words_are_kept_apart() {
    let mut mem = PhysMemory::new(PhysPageNum(0x80), 2);
    mem.write_word(PhysPageNum(0x80), 511, 7);
    mem.write_word(PhysPageNum(0x81), 0, 9);
    assert_eq!(mem.read_word(PhysPageNum(0x80), 511), 7);
    assert_eq!(mem.read_word(PhysPageNum(0x81), 0), 9);
    assert_eq!(mem.read_word(PhysPageNum(0x80), 510), 0);
    assert_eq!(mem.read_word(PhysPageNum(0x81), 1), 0);
}

#[test]
fn bytes_lie_in_words_with_the_low_byte_first() {
    let mut mem = PhysMemory::new(PhysPageNum(0), 1);
    mem.write_word(PhysPageNum(0), 1, 0x8877_6655_4433_2211);
    for k in 0..8 {
        assert_eq!(mem.read_byte(PhysPageNum(0), 8 + k), 0x11 * (k as u8 + 1));
    }
    mem.write_byte(PhysPageNum(0), 10, 0xab);
    assert_eq!(mem.read_word(PhysPageNum(0), 1), 0x8877_6655_44ab_2211);
    mem.write_byte(PhysPageNum(0), 15, 0);
    assert_eq!(mem.read_word(PhysPageNum(0), 1), 0x0077_6655_44ab_2211);
    mem.write_byte(PhysPageNum(0), 4095, 0xfe);
    assert_eq!(mem.read_word(PhysPageNum(0), 511), 0xfe00_0000_0000_0000);
    assert_eq!(mem.read_byte(PhysPageNum(0), 4095), 0xfe);
}

#[test]
fn zero_frame_clears_one_page() {
    let mut mem = PhysMemory::new(PhysPageNum(4), 2);
    mem.write_word(PhysPageNum(4), 3, 1);
    mem.write_word(PhysPageNum(5), 3, 2);
    mem.zero_frame(PhysPageNum(4));
    assert_eq!(mem.read_word(PhysPageNum(4), 3), 0);
    assert_eq!(mem.read_word(PhysPageNum(5), 3), 2);
}
