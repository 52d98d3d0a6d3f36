//! Application images: the header and the loadable segments of a 64-bit
//! little-endian ELF file.

use crate::config::{PAGE_SIZE, TRAP_CONTEXT, USER_STACK_SIZE};
use vstd::prelude::*;

verus! {

/// The size of the file header.
pub const ELF_HEADER_SIZE: usize = 64;

/// The size of one entry of the program header table.
pub const PROGRAM_HEADER_SIZE: usize = 56;

/// The type of a program header that describes a loadable segment.
pub const PT_LOAD: u32 = 1;

/// Flag of a segment: it may be executed.
pub const PF_X: u32 = 1;

/// Flag of a segment: it may be written.
pub const PF_W: u32 = 2;

/// Flag of a segment: it may be read.
pub const PF_R: u32 = 4;

/// The number of two bytes at `at`, the low byte first.
pub open spec fn le_u16(s: Seq<u8>, at: int) -> int {
    s[at] + s[at + 1] * 0x100
}

/// The number of four bytes at `at`, the low byte first.
pub open spec fn le_u32(s: Seq<u8>, at: int) -> int {
    s[at] + s[at + 1] * 0x100 + s[at + 2] * 0x1_0000 + s[at + 3] * 0x100_0000
}

/// The number of eight bytes at `at`, the low byte first.
pub open spec fn le_u64(s: Seq<u8>, at: int) -> int {
    le_u32(s, at) + le_u32(s, at + 4) * 0x1_0000_0000
}

/// One entry of the program header table.
#[derive(Clone, Copy, Debug, PartialEq, Eq, Structural)]
pub struct ProgramHeader {
    pub p_type: u32,
    pub flags: u32,
    /// Where the segment's bytes start in the file.
    pub offset: u64,
    /// The virtual address of the segment's first byte.
    pub vaddr: u64,
    /// The number of the segment's bytes in the file.
    pub file_size: u64,
    /// The number of the segment's bytes in memory.
    pub mem_size: u64,
}

impl ProgramHeader {
    /// The first page of the segment.
    pub open spec fn start_page(self) -> int {
        self.vaddr as int / 4096
    }

    /// One more than the last page of the segment.
    pub open spec fn end_page(self) -> int {
        (self.vaddr + self.mem_size + 4095) / 4096
    }

    /// The segment's bytes lie in a file of `len` bytes, fit into its
    /// memory, and its memory leaves room above it for a guard page, the
    /// user stack and the trap context.
    pub open spec fn fits(self, len: int) -> bool {
        &&& self.offset + self.file_size <= len
        &&& self.file_size <= self.mem_size
        &&& self.vaddr + self.mem_size + 4095 + PAGE_SIZE + USER_STACK_SIZE <= TRAP_CONTEXT
    }
}

/// The file starts with the header of a 64-bit little-endian ELF file, and
/// its program header table lies in the file.
pub open spec fn header_ok(s: Seq<u8>) -> bool {
    &&& s.len() >= ELF_HEADER_SIZE
    &&& s[0] == 0x7f
    &&& s[1] == 0x45
    &&& s[2] == 0x4c
    &&& s[3] == 0x46
    &&& s[4] == 2
    &&& s[5] == 1
    &&& le_u16(s, 54) == PROGRAM_HEADER_SIZE
    &&& le_u64(s, 32) + le_u16(s, 56) * PROGRAM_HEADER_SIZE <= s.len()
}

/// The number of entries of the program header table.
pub open spec fn header_count(s: Seq<u8>) -> int {
    le_u16(s, 56)
}

/// The address at which the program starts.
pub open spec fn entry_point(s: Seq<u8>) -> int {
    le_u64(s, 24)
}

/// Entry `i` of the program header table.
pub open spec fn program_header(s: Seq<u8>, i: int) -> ProgramHeader {
    let at = le_u64(s, 32) + i * PROGRAM_HEADER_SIZE;
    ProgramHeader {
        p_type: le_u32(s, at) as u32,
        flags: le_u32(s, at + 4) as u32,
        offset: le_u64(s, at + 8) as u64,
        vaddr: le_u64(s, at + 16) as u64,
        file_size: le_u64(s, at + 32) as u64,
        mem_size: le_u64(s, at + 40) as u64,
    }
}

/// The loadable segments among the first `n` entries of the program header
/// table, in the order of the table.
pub open spec fn loads_upto(s: Seq<u8>, n: int) -> Seq<ProgramHeader>
    decreases n,
{
    if n <= 0 {
        Seq::empty()
    } else {
        let rest = loads_upto(s, n - 1);
        let ph = program_header(s, n - 1);
        if ph.p_type == PT_LOAD {
            rest.push(ph)
        } else {
            rest
        }
    }
}

/// The loadable segments of the file.
pub open spec fn load_segments(s: Seq<u8>) -> Seq<ProgramHeader> {
    loads_upto(s, header_count(s))
}

/// Every segment fits, and the segments come in ascending order without a
/// page in common.
pub open spec fn segments_ok(segs: Seq<ProgramHeader>, len: int) -> bool {
    &&& forall|i: int| 0 <= i < segs.len() ==> (#[trigger] segs[i]).fits(len)
    &&& forall|i: int, j: int|
        0 <= i < j < segs.len() ==> (#[trigger] segs[i]).end_page() <= (
        #[trigger] segs[j]).start_page()
}

/// The file is an image that can be loaded.
pub open spec fn loadable(s: Seq<u8>) -> bool {
    header_ok(s) && segments_ok(load_segments(s), s.len() as int)
}

/// What is taken from an image to load it.
pub struct ElfImage {
    /// The address at which the program starts.
    pub entry: u64,
    /// The loadable segments, in the order of the program header table.
    pub segments: Vec<ProgramHeader>,
}

fn read_u16(data: &[u8], at: usize) -> (r: u16)
    requires
        at + 2 <= data@.len(),
    ensures
        r == le_u16(data@, at as int),
{
    data[at] as u16 + (data[at + 1] as u16) * 0x100
}

fn read_u32(data: &[u8], at: usize) -> (r: u32)
    requires
        at + 4 <= data@.len(),
    ensures
        r == le_u32(data@, at as int),
{
    data[at] as u32 + (data[at + 1] as u32) * 0x100 + (data[at + 2] as u32) * 0x1_0000 + (data[at
        + 3] as u32) * 0x100_0000
}

fn read_u64(data: &[u8], at: usize) -> (r: u64)
    requires
        at + 8 <= data@.len(),
    ensures
        r == le_u64(data@, at as int),
{
    let len: usize = data.len();
    assert(at + 8 <= len);
    read_u32(data, at) as u64 + (read_u32(data, at + 4) as u64) * 0x1_0000_0000
}

fn read_program_header(data: &[u8], at: usize) -> (ph: ProgramHeader)
    requires
        at + PROGRAM_HEADER_SIZE <= data@.len(),
    ensures
        ph == (ProgramHeader {
            p_type: le_u32(data@, at as int) as u32,
            flags: le_u32(data@, at + 4) as u32,
            offset: le_u64(data@, at + 8) as u64,
            vaddr: le_u64(data@, at + 16) as u64,
            file_size: le_u64(data@, at + 32) as u64,
            mem_size: le_u64(data@, at + 40) as u64,
        }),
{
    let len: usize = data.len();
    assert(at + 56 <= len);
    ProgramHeader {
        p_type: read_u32(data, at),
        flags: read_u32(data, at + 4),
        offset: read_u64(data, at + 8),
        vaddr: read_u64(data, at + 16),
        file_size: read_u64(data, at + 32),
        mem_size: read_u64(data, at + 40),
    }
}

/// Whether the segment's bytes lie in a file of `len` bytes, fit into its
/// memory, and its memory leaves room above it.
fn segment_fits(ph: &ProgramHeader, len: usize) -> (b: bool)
    ensures
        b == ph.fits(len as int),
{
    let limit: u64 = TRAP_CONTEXT - 4095 - PAGE_SIZE - USER_STACK_SIZE;
    ph.offset <= len as u64 && ph.file_size <= len as u64 - ph.offset && ph.file_size
        <= ph.mem_size && ph.vaddr <= limit && ph.mem_size <= limit - ph.vaddr
}

/// Reads the header and the program header table of an image. The result
/// is `None` exactly where the image cannot be loaded.
#[verifier::rlimit(50)]
pub fn parse_elf(data: &[u8]) -> (r: Option<ElfImage>)
    ensures
        r is Some <==> loadable(data@),
        r matches Some(img) ==> img.entry == entry_point(data@) && img.segments@ == load_segments(
            data@,
        ) && img.segments@.len() <= 0xffff,
{
    let len: usize = data.len();
    if len < ELF_HEADER_SIZE {
        return None;
    }
    if data[0] != 0x7f || data[1] != 0x45 || data[2] != 0x4c || data[3] != 0x46 || data[4] != 2
        || data[5] != 1 {
        return None;
    }
    let entry = read_u64(data, 24);
    let phoff = read_u64(data, 32);
    let phentsize = read_u16(data, 54);
    let phnum = read_u16(data, 56);
    if phentsize as usize != PROGRAM_HEADER_SIZE {
        return None;
    }
    let table: u64 = phnum as u64 * PROGRAM_HEADER_SIZE as u64;
    if phoff > len as u64 || table > len as u64 - phoff {
        return None;
    }
    let mut segments: Vec<ProgramHeader> = Vec::new();
    let mut i: u16 = 0;
    while i < phnum
        invariant
            i <= phnum,
            len == data@.len(),
            phnum == header_count(data@),
            phoff == le_u64(data@, 32),
            phoff + phnum * PROGRAM_HEADER_SIZE <= len,
            segments@ == loads_upto(data@, i as int),
            segments@.len() <= i,
            segments_ok(segments@, len as int),
        decreases phnum - i,
    {
        let at: u64 = phoff + i as u64 * PROGRAM_HEADER_SIZE as u64;
        let ph = read_program_header(data, at as usize);
        assert(ph == program_header(data@, i as int));
        if ph.p_type == PT_LOAD {
            let ordered = if segments.len() == 0 {
                true
            } else {
                let last = &segments[segments.len() - 1];
                segment_fits(&ph, len) && (last.vaddr + last.mem_size + 4095) / 4096 <= ph.vaddr
                    / 4096
            };
            if !segment_fits(&ph, len) || !ordered {
                proof {
                    lemma_not_loadable(data@, i as int, phnum as int);
                }
                return None;
            }
            proof {
                let before = segments@;
                let after = before.push(ph);
                assert forall|x: int, y: int| 0 <= x < y < after.len() implies (
                #[trigger] after[x]).end_page() <= (#[trigger] after[y]).start_page() by {
                    if y == before.len() {
                        if x < before.len() - 1 {
                            assert(before[x].end_page() <= before[before.len() - 1].start_page());
                            assert(before[before.len() - 1].fits(len as int));
                        }
                    }
                }
            }
            segments.push(ph);
        }
        i += 1;
    }
    Some(ElfImage { entry, segments })
}

/// The loadable segments among the first `n` entries stay the first of the
/// loadable segments among more entries.
proof fn lemma_loads_prefix(s: Seq<u8>, n: int, more: int)
    requires
        0 <= n <= more,
    ensures
        loads_upto(s, n).len() <= loads_upto(s, more).len(),
        forall|k: int|
            0 <= k < loads_upto(s, n).len() ==> #[trigger] loads_upto(s, more)[k] == loads_upto(
                s,
                n,
            )[k],
    decreases more - n,
{
    if n < more {
        lemma_loads_prefix(s, n, more - 1);
    }
}

/// An image whose entry `i` is a loadable segment that does not fit, or
/// that does not lie above the segment before it, cannot be loaded.
proof fn lemma_not_loadable(s: Seq<u8>, i: int, count: int)
    requires
        0 <= i < count,
        count == header_count(s),
        program_header(s, i).p_type == PT_LOAD,
        segments_ok(loads_upto(s, i), s.len() as int),
        !program_header(s, i).fits(s.len() as int) || (loads_upto(s, i).len() > 0 && loads_upto(
            s,
            i,
        ).last().end_page() > program_header(s, i).start_page()),
    ensures
        !loadable(s),
{
    let upto = loads_upto(s, i + 1);
    let all = loads_upto(s, count);
    lemma_loads_prefix(s, i + 1, count);
    let k = upto.len() - 1;
    assert(upto[k] == program_header(s, i));
    assert(all[k] == upto[k]);
    if loads_upto(s, i).len() > 0 {
        assert(upto[k - 1] == loads_upto(s, i).last());
        assert(all[k - 1] == upto[k - 1]);
    }
}

} // verus!
