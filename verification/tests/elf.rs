use kernel_core::mm::elf::{parse_elf, ProgramHeader, PF_R, PF_W, PF_X, PT_LOAD};

fn put(out: &mut Vec<u8>, at: usize, bytes: &[u8]) {
    out[at..at + bytes.len()].copy_from_slice(bytes);
}

/// An image with the given program headers and `extra` bytes behind the
/// table.
fn image(entry: u64, headers: &[ProgramHeader], extra: usize) -> Vec<u8> {
    let mut out = vec![0u8; 64 + 56 * headers.len() + extra];
    put(&mut out, 0, &[0x7f, 0x45, 0x4c, 0x46, 2, 1, 1, 0]);
    put(&mut out, 16, &2u16.to_le_bytes());
    put(&mut out, 18, &243u16.to_le_bytes());
    put(&mut out, 24, &entry.to_le_bytes());
    put(&mut out, 32, &64u64.to_le_bytes());
    put(&mut out, 52, &64u16.to_le_bytes());
    put(&mut out, 54, &56u16.to_le_bytes());
    put(&mut out, 56, &(headers.len() as u16).to_le_bytes());
    for (i, ph) in headers.iter().enumerate() {
        let at = 64 + 56 * i;
        put(&mut out, at, &ph.p_type.to_le_bytes());
        put(&mut out, at + 4, &ph.flags.to_le_bytes());
        put(&mut out, at + 8, &ph.offset.to_le_bytes());
        put(&mut out, at + 16, &ph.vaddr.to_le_bytes());
        put(&mut out, at + 24, &ph.vaddr.to_le_bytes());
        put(&mut out, at + 32, &ph.file_size.to_le_bytes());
        put(&mut out, at + 40, &ph.mem_size.to_le_bytes());
        put(&mut out, at + 48, &4096u64.to_le_bytes());
    }
    out
}

fn load(vaddr: u64, offset: u64, file_size: u64, mem_size: u64, flags: u32) -> ProgramHeader {
    ProgramHeader { p_type: PT_LOAD, flags, offset, vaddr, file_size, mem_size }
}

#[test]
fn header_and_segments_are_read() {
    let headers = [
        load(0x10000, 176, 16, 0x2000, PF_R | PF_X),
        ProgramHeader { p_type: 6, flags: 4, offset: 64, vaddr: 0, file_size: 1, mem_size: 1 },
        load(0x13000, 192, 8, 8, PF_R | PF_W),
    ];
    let data = image(0x10040, &headers, 100);
    let img = parse_elf(&data).unwrap();
    assert_eq!(img.entry, 0x10040);
    assert_eq!(img.segments, vec![headers[0], headers[2]]);
}

#[test]
fn image_without_segments_is_accepted() {
    let data = image(0, &[], 0);
    let img = parse_elf(&data).unwrap();
    assert_eq!(img.entry, 0);
    assert!(img.segments.is_empty());
}

#[test]
fn short_or_foreign_files_are_refused() {
    let good = image(0, &[], 0);
    assert!(parse_elf(&good[..63]).is_none());
    assert!(parse_elf(&[]).is_none());
    for at in 0..6 {
        let mut bad = good.clone();
        bad[at] ^= 1;
        assert!(parse_elf(&bad).is_none());
    }
}

#[test]
fn table_must_lie_in_the_file() {
    let headers = [load(0x10000, 0, 0, 0x1000, PF_R)];
    let data = image(0, &headers, 0);
    assert!(parse_elf(&data).is_some());
    assert!(parse_elf(&data[..data.len() - 1]).is_none());
    let mut odd = data.clone();
    put(&mut odd, 54, &57u16.to_le_bytes());
    assert!(parse_elf(&odd).is_none());
    let mut far = data.clone();
    put(&mut far, 32, &u64::MAX.to_le_bytes());
    assert!(parse_elf(&far).is_none());
}

#[test]
fn segments_must_fit() {
    // bytes beyond the end of the file
    assert!(parse_elf(&image(0, &[load(0x10000, 120, 1, 0x1000, PF_R)], 0)).is_none());
    assert!(parse_elf(&image(0, &[load(0x10000, 119, 1, 0x1000, PF_R)], 0)).is_some());
    assert!(parse_elf(&image(0, &[load(0x10000, u64::MAX, 2, 0x1000, PF_R)], 0)).is_none());
    // more bytes in the file than in memory
    assert!(parse_elf(&image(0, &[load(0x10000, 64, 9, 8, PF_R)], 0)).is_none());
    // no room left for the stack below the trap context
    let top = 0x7f_ffff_e000u64 - 4095 - 4096 - 8192;
    assert!(parse_elf(&image(0, &[load(top - 0x1000, 0, 0, 0x1000, PF_R)], 0)).is_some());
    assert!(parse_elf(&image(0, &[load(top - 0x1000, 0, 0, 0x1001, PF_R)], 0)).is_none());
    assert!(parse_elf(&image(0, &[load(u64::MAX, 0, 0, 1, PF_R)], 0)).is_none());
}

#[test]
fn segments_must_ascend_without_a_page_in_common() {
    let a = load(0x10000, 0, 0, 0x1001, PF_R);
    assert!(parse_elf(&image(0, &[a, load(0x12000, 0, 0, 1, PF_R)], 0)).is_some());
    assert!(parse_elf(&image(0, &[a, load(0x11fff, 0, 0, 1, PF_R)], 0)).is_none());
    assert!(parse_elf(&image(0, &[load(0x12000, 0, 0, 1, PF_R), a], 0)).is_none());
    assert!(parse_elf(&image(0, &[a, a], 0)).is_none());
}
