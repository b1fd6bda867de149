//! ELF64 validation and segment placement planning.
//!
//! Validates kernel and init ELF images read from the EFI system partition
//! and computes placement plans for their `PT_LOAD` segments. W^X is
//! enforced at the segment level before any placement is planned, so a
//! violation never leaves a partially loaded image. The caller carries the
//! plans out against firmware memory; everything decided here is proved.

use vstd::prelude::*;

use crate::error::BootError;

verus! {

/// ELF class: 64-bit object.
pub const ELFCLASS64: u8 = 2;
/// ELF data encoding: 2's complement, little-endian.
pub const ELFDATA2LSB: u8 = 1;
/// ELF version: current.
pub const EV_CURRENT: u8 = 1;
/// ELF type: static executable.
pub const ET_EXEC: u16 = 2;
/// Machine type: x86-64.
pub const EM_X86_64: u16 = 0x3E;
/// Machine type: RISC-V.
pub const EM_RISCV: u16 = 0xF3;
/// Program header type: loadable segment.
pub const PT_LOAD: u32 = 1;
/// Segment flag: execute permission.
pub const PF_X: u32 = 1;
/// Segment flag: write permission.
pub const PF_W: u32 = 2;
/// Segment flag: read permission.
pub const PF_R: u32 = 4;
/// Size in bytes of the fixed ELF64 file header.
pub const EHDR_SIZE: usize = 64;
/// Size in bytes of one ELF64 program header entry.
pub const PHDR_SIZE: usize = 56;
/// Maximum number of `PT_LOAD` segments the loader places.
pub const MAX_SEGMENTS: usize = 8;

/// 64-bit ELF file header (`Elf64_Ehdr`), parsed from the image bytes.
#[derive(Clone, Debug)]
pub struct Elf64Ehdr {
    /// Magic number and ELF identification bytes (16 of them).
    pub e_ident: Vec<u8>,
    /// Object file type (e.g. `ET_EXEC`).
    pub e_type: u16,
    /// Target machine architecture.
    pub e_machine: u16,
    /// ELF format version; must equal `EV_CURRENT`.
    pub e_version: u32,
    /// Virtual address of the program entry point.
    pub e_entry: u64,
    /// File offset of the program header table.
    pub e_phoff: u64,
    /// File offset of the section header table (unused by the loader).
    pub e_shoff: u64,
    /// Processor-specific flags.
    pub e_flags: u32,
    /// Size of this header in bytes.
    pub e_ehsize: u16,
    /// Size of one program header entry in bytes.
    pub e_phentsize: u16,
    /// Number of program header entries.
    pub e_phnum: u16,
    /// Size of one section header entry in bytes (unused by the loader).
    pub e_shentsize: u16,
    /// Number of section header entries (unused by the loader).
    pub e_shnum: u16,
    /// Index of the section name string table entry (unused by the loader).
    pub e_shstrndx: u16,
}

/// 64-bit ELF program header (`Elf64_Phdr`), parsed from the image bytes.
#[derive(Clone, Copy, Debug, PartialEq, Eq, Structural)]
pub struct Elf64Phdr {
    /// Segment type (e.g. `PT_LOAD`).
    pub p_type: u32,
    /// Segment-dependent permission flags (`PF_R`, `PF_W`, `PF_X`).
    pub p_flags: u32,
    /// Byte offset of the segment data within the file.
    pub p_offset: u64,
    /// Virtual address at which the segment is to be loaded.
    pub p_vaddr: u64,
    /// Physical address of the segment (used by the loader for placement).
    pub p_paddr: u64,
    /// Number of bytes in the file image of the segment.
    pub p_filesz: u64,
    /// Number of bytes in the memory image (may exceed `p_filesz`).
    pub p_memsz: u64,
    /// Required alignment; a power of two, or zero.
    pub p_align: u64,
}

/// A single planned ELF `PT_LOAD` segment with physical placement and
/// permissions.
#[derive(Clone, Copy, Debug, PartialEq, Eq, Structural)]
pub struct LoadedSegment {
    /// Physical base address where this segment is placed.
    pub phys_base: u64,
    /// ELF virtual base address this segment is mapped at.
    pub virt_base: u64,
    /// Size of the segment in memory (`p_memsz`).
    pub size: u64,
    /// Segment is writable (`PF_W` set).
    pub writable: bool,
    /// Segment is executable (`PF_X` set).
    pub executable: bool,
}

/// Result of planning the kernel ELF load.
///
/// Produced by `load_kernel` and consumed by the page-table builder and by
/// the `BootInfo` population step.
#[derive(Clone, Debug)]
pub struct KernelInfo {
    /// Lowest physical address across all placed segments.
    pub physical_base: u64,
    /// Lowest virtual address across all placed segments.
    pub virtual_base: u64,
    /// Physical span from `physical_base` to the end of the highest segment.
    pub size: u64,
    /// Virtual address of the kernel entry point (`e_entry`).
    pub entry_virtual: u64,
    /// Placed segments; at most [`MAX_SEGMENTS`] of them.
    pub segments: Vec<LoadedSegment>,
    /// Number of valid entries in `segments`.
    pub segment_count: usize,
}

impl KernelInfo {
    /// The segment list is bounded, the count describes it, the entry lies
    /// inside at least one segment's virtual range, no segment is both
    /// writable and executable, and base and span cover every segment.
    pub open spec fn wf(self) -> bool {
        &&& self.segment_count == self.segments@.len()
        &&& 1 <= self.segments@.len() <= MAX_SEGMENTS
        &&& forall|i: int| 0 <= i < self.segments@.len()
                ==> (#[trigger] self.segments@[i]).size > 0
        &&& forall|i: int| 0 <= i < self.segments@.len()
                ==> !((#[trigger] self.segments@[i]).writable && self.segments@[i].executable)
        &&& exists|i: int| 0 <= i < self.segments@.len()
                && ((#[trigger] self.segments@[i]).virt_base <= self.entry_virtual)
                && self.entry_virtual - self.segments@[i].virt_base < self.segments@[i].size
        &&& forall|i: int| 0 <= i < self.segments@.len()
                ==> self.physical_base <= (#[trigger] self.segments@[i]).phys_base
        &&& forall|i: int| 0 <= i < self.segments@.len()
                ==> seg_end(#[trigger] self.segments@[i]) <= self.physical_base + self.size
    }
}

// ── Little-endian byte readers ───────────────────────────────────────────

/// The little-endian 16-bit value at byte offset `off` of `s`.
pub open spec fn spec_u16_le(s: Seq<u8>, off: int) -> u16 {
    (s[off] + s[off + 1] * 0x100) as u16
}

/// The little-endian 32-bit value at byte offset `off` of `s`.
pub open spec fn spec_u32_le(s: Seq<u8>, off: int) -> u32 {
    (s[off] + s[off + 1] * 0x100 + s[off + 2] * 0x1_0000 + s[off + 3] * 0x100_0000) as u32
}

/// The little-endian 64-bit value at byte offset `off` of `s`.
pub open spec fn spec_u64_le(s: Seq<u8>, off: int) -> u64 {
    (spec_u32_le(s, off) + spec_u32_le(s, off + 4) * 0x1_0000_0000) as u64
}

/// Read a little-endian 16-bit value from the image bytes.
pub(crate) fn read_u16(data: &Vec<u8>, off: usize) -> (r: u16)
    requires
        off + 2 <= data@.len(),
    ensures
        r == spec_u16_le(data@, off as int),
{
    let n = data.len();
    proof {
        assert(off + 2 <= n);
    }
    let b0 = data[off];
    let b1 = data[off + 1];
    proof {
        assert(((b0 as u16) | ((b1 as u16) << 8)) == (b0 + b1 * 0x100) as u16) by (bit_vector);
    }
    (b0 as u16) | ((b1 as u16) << 8)
}

/// Read a little-endian 32-bit value from the image bytes.
pub(crate) fn read_u32(data: &Vec<u8>, off: usize) -> (r: u32)
    requires
        off + 4 <= data@.len(),
    ensures
        r == spec_u32_le(data@, off as int),
{
    let n = data.len();
    proof {
        assert(off + 4 <= n);
    }
    let b0 = data[off];
    let b1 = data[off + 1];
    let b2 = data[off + 2];
    let b3 = data[off + 3];
    proof {
        assert(((b0 as u32) | ((b1 as u32) << 8) | ((b2 as u32) << 16) | ((b3 as u32) << 24))
            == (b0 + b1 * 0x100 + b2 * 0x1_0000 + b3 * 0x100_0000) as u32) by (bit_vector);
    }
    (b0 as u32) | ((b1 as u32) << 8) | ((b2 as u32) << 16) | ((b3 as u32) << 24)
}

/// Read a little-endian 64-bit value from the image bytes.
pub(crate) fn read_u64(data: &Vec<u8>, off: usize) -> (r: u64)
    requires
        off + 8 <= data@.len(),
    ensures
        r == spec_u64_le(data@, off as int),
{
    let n = data.len();
    proof {
        assert(off + 8 <= n);
    }
    let lo = read_u32(data, off);
    let hi = read_u32(data, off + 4);
    let r = (lo as u64) | ((hi as u64) << 32);
    proof {
        assert(((lo as u64) | ((hi as u64) << 32)) == (lo + hi * 0x1_0000_0000) as u64)
            by (bit_vector);
    }
    r
}

// ── Parsed views of the image ────────────────────────────────────────────

/// The program header encoded at byte offset `off` of `s`.
pub open spec fn spec_phdr(s: Seq<u8>, off: int) -> Elf64Phdr {
    Elf64Phdr {
        p_type: spec_u32_le(s, off),
        p_flags: spec_u32_le(s, off + 4),
        p_offset: spec_u64_le(s, off + 8),
        p_vaddr: spec_u64_le(s, off + 16),
        p_paddr: spec_u64_le(s, off + 24),
        p_filesz: spec_u64_le(s, off + 32),
        p_memsz: spec_u64_le(s, off + 40),
        p_align: spec_u64_le(s, off + 48),
    }
}

/// File offset of the `i`-th program header.
pub open spec fn phdr_off(s: Seq<u8>, i: int) -> int {
    spec_u64_le(s, 32) + 56 * i
}

/// Number of program headers the image declares.
pub open spec fn spec_phnum(s: Seq<u8>) -> int {
    spec_u16_le(s, 56) as int
}

/// The `i`-th program header of the image.
pub open spec fn spec_phdr_i(s: Seq<u8>, i: int) -> Elf64Phdr {
    spec_phdr(s, phdr_off(s, i))
}

/// The entry address lies inside some loadable segment of the image.
pub open spec fn entry_in_load_segment(s: Seq<u8>) -> bool {
    exists|i: int| 0 <= i < spec_phnum(s) && {
        let ph = #[trigger] spec_phdr_i(s, i);
        &&& ph.p_type == PT_LOAD
        &&& ph.p_memsz > 0
        &&& ph.p_vaddr <= spec_u64_le(s, 24)
        &&& spec_u64_le(s, 24) - ph.p_vaddr < ph.p_memsz
    }
}

/// All eleven validation checks on an ELF64 image, in the loader's order:
/// buffer size, magic, class, endianness, ident version, static
/// executable type, machine, program-header entry size, at least one
/// program header, in-bounds program-header table, and an entry address
/// inside some loadable segment.
pub open spec fn valid_elf64(s: Seq<u8>, expected_machine: u16) -> bool {
    &&& s.len() >= EHDR_SIZE
    &&& s[0] == 0x7F_u8
    &&& s[1] == 0x45_u8
    &&& s[2] == 0x4C_u8
    &&& s[3] == 0x46_u8
    &&& s[4] == ELFCLASS64
    &&& s[5] == ELFDATA2LSB
    &&& s[6] == EV_CURRENT
    &&& spec_u16_le(s, 16) == ET_EXEC
    &&& spec_u16_le(s, 18) == expected_machine
    &&& spec_u16_le(s, 54) == PHDR_SIZE as u16
    &&& spec_phnum(s) > 0
    &&& spec_u64_le(s, 32) + 56 * spec_phnum(s) <= s.len()
    &&& entry_in_load_segment(s)
}

/// Read the program header at byte offset `off`.
fn read_phdr(data: &Vec<u8>, off: usize) -> (r: Elf64Phdr)
    requires
        off + PHDR_SIZE <= data@.len(),
    ensures
        r == spec_phdr(data@, off as int),
{
    let n = data.len();
    proof {
        assert(off + PHDR_SIZE <= n);
    }
    Elf64Phdr {
        p_type: read_u32(data, off),
        p_flags: read_u32(data, off + 4),
        p_offset: read_u64(data, off + 8),
        p_vaddr: read_u64(data, off + 16),
        p_paddr: read_u64(data, off + 24),
        p_filesz: read_u64(data, off + 32),
        p_memsz: read_u64(data, off + 40),
        p_align: read_u64(data, off + 48),
    }
}

/// Validate an ELF64 image against the expected machine type.
///
/// Performs the eleven checks of [`valid_elf64`] in order and parses the
/// fixed header; no placement happens here, and a failure commits
/// nothing. Returns the parsed header on success.
pub fn validate_elf_header(data: &Vec<u8>, expected_machine: u16) -> (r: Result<
    Elf64Ehdr,
    BootError,
>)
    ensures
        r is Ok <==> valid_elf64(data@, expected_machine),
        r is Err ==> r matches Err(BootError::InvalidElf(_)),
        r matches Ok(h) ==> {
            &&& h.e_ident@ == data@.subrange(0, 16)
            &&& h.e_type == spec_u16_le(data@, 16)
            &&& h.e_machine == spec_u16_le(data@, 18)
            &&& h.e_version == spec_u32_le(data@, 20)
            &&& h.e_entry == spec_u64_le(data@, 24)
            &&& h.e_phoff == spec_u64_le(data@, 32)
            &&& h.e_shoff == spec_u64_le(data@, 40)
            &&& h.e_flags == spec_u32_le(data@, 48)
            &&& h.e_ehsize == spec_u16_le(data@, 52)
            &&& h.e_phentsize == spec_u16_le(data@, 54)
            &&& h.e_phnum == spec_u16_le(data@, 56)
            &&& h.e_shentsize == spec_u16_le(data@, 58)
            &&& h.e_shnum == spec_u16_le(data@, 60)
            &&& h.e_shstrndx == spec_u16_le(data@, 62)
        },
{
    // Check 1: buffer large enough for the fixed header.
    if data.len() < EHDR_SIZE {
        return Err(BootError::InvalidElf("file too small to contain ELF header"));
    }
    // Check 2: ELF magic.
    if data[0] != 0x7F || data[1] != 0x45 || data[2] != 0x4C || data[3] != 0x46 {
        return Err(BootError::InvalidElf("bad ELF magic number"));
    }
    // Check 3: 64-bit class.
    if data[4] != ELFCLASS64 {
        return Err(BootError::InvalidElf("ELF is not 64-bit (ELFCLASS64 required)"));
    }
    // Check 4: little-endian encoding.
    if data[5] != ELFDATA2LSB {
        return Err(BootError::InvalidElf("ELF is not little-endian (ELFDATA2LSB required)"));
    }
    // Check 5: current format version.
    if data[6] != EV_CURRENT {
        return Err(BootError::InvalidElf("ELF ident version is not EV_CURRENT"));
    }
    // Check 6: static executable; position-independent images are not
    // supported because the loader places segments at their ELF p_paddr.
    let e_type = read_u16(data, 16);
    if e_type != ET_EXEC {
        return Err(
            BootError::InvalidElf("ELF type is not ET_EXEC (position-independent ELF not supported)"),
        );
    }
    // Check 7: machine type matches the target architecture.
    let e_machine = read_u16(data, 18);
    if e_machine != expected_machine {
        return Err(BootError::InvalidElf("ELF machine type does not match bootloader architecture"));
    }
    // Check 8: program header entry size matches the defined layout.
    let e_phentsize = read_u16(data, 54);
    if e_phentsize as usize != PHDR_SIZE {
        return Err(BootError::InvalidElf("e_phentsize does not match sizeof(Elf64_Phdr)"));
    }
    // Check 9: at least one program header.
    let e_phnum = read_u16(data, 56);
    if e_phnum == 0 {
        return Err(BootError::InvalidElf("ELF has no program headers (e_phnum == 0)"));
    }
    // Check 10: the program header table lies entirely within the buffer.
    let e_phoff = read_u64(data, 32);
    let ph_bytes: u64 = (e_phnum as u64) * 56;
    if e_phoff > u64::MAX - ph_bytes {
        return Err(BootError::InvalidElf("program header table offset overflow"));
    }
    if e_phoff + ph_bytes > data.len() as u64 {
        return Err(BootError::InvalidElf("program header table extends beyond end of file"));
    }
    // Check 11: the entry address lies inside some loadable segment.
    let e_entry = read_u64(data, 24);
    let dn = data.len();
    let mut found = false;
    let mut i: usize = 0;
    let n = e_phnum as usize;
    while i < n
        invariant
            n == spec_phnum(data@),
            dn == data@.len(),
            spec_u64_le(data@, 32) + 56 * n <= data@.len(),
            e_phoff == spec_u64_le(data@, 32),
            e_entry == spec_u64_le(data@, 24),
            i <= n,
            found == exists|k: int| 0 <= k < i && {
                let ph = #[trigger] spec_phdr_i(data@, k);
                &&& ph.p_type == PT_LOAD
                &&& ph.p_memsz > 0
                &&& ph.p_vaddr <= e_entry
                &&& e_entry - ph.p_vaddr < ph.p_memsz
            },
        decreases n - i,
    {
        proof {
            assert(e_phoff + 56 * (i as int) + 56 <= dn);
        }
        let off = (e_phoff as usize) + i * PHDR_SIZE;
        let ph = read_phdr(data, off);
        proof {
            assert(off as int == phdr_off(data@, i as int));
            assert(ph == spec_phdr_i(data@, i as int));
        }
        if ph.p_type == PT_LOAD && ph.p_memsz > 0 && ph.p_vaddr <= e_entry
            && e_entry - ph.p_vaddr < ph.p_memsz {
            found = true;
        }
        i += 1;
    }
    if !found {
        return Err(BootError::InvalidElf("entry point not in any LOAD segment"));
    }
    // All checks passed: commit the parsed header.
    let mut ident: Vec<u8> = Vec::new();
    let mut k: usize = 0;
    while k < 16
        invariant
            data@.len() >= EHDR_SIZE,
            k <= 16,
            ident@.len() == k,
            forall|q: int| 0 <= q < k ==> ident@[q] == data@[q],
        decreases 16 - k,
    {
        ident.push(data[k]);
        k += 1;
    }
    proof {
        assert(ident@ =~= data@.subrange(0, 16));
    }
    Ok(Elf64Ehdr {
        e_ident: ident,
        e_type,
        e_machine,
        e_version: read_u32(data, 20),
        e_entry,
        e_phoff,
        e_shoff: read_u64(data, 40),
        e_flags: read_u32(data, 48),
        e_ehsize: read_u16(data, 52),
        e_phentsize,
        e_phnum,
        e_shentsize: read_u16(data, 58),
        e_shnum: read_u16(data, 60),
        e_shstrndx: read_u16(data, 62),
    })
}

/// A loadable segment carries both write and execute permission.
pub open spec fn phdr_is_wx(ph: Elf64Phdr) -> bool {
    ph.p_type == PT_LOAD && ph.p_flags & PF_W != 0 && ph.p_flags & PF_X != 0
}

/// Scan program headers for simultaneous write and execute permission.
///
/// Returns `WxViolation` on the first loadable segment carrying both;
/// non-loadable segments are ignored. Runs before any placement is
/// planned so a violation never leaves a partially loaded image.
pub fn check_wx_segments(phdrs: &Vec<Elf64Phdr>) -> (r: Result<(), BootError>)
    ensures
        r is Ok <==> (forall|i: int| 0 <= i < phdrs@.len() ==> !phdr_is_wx(#[trigger] phdrs@[i])),
        r is Err ==> r == Err::<(), BootError>(BootError::WxViolation),
{
    let n = phdrs.len();
    let mut i: usize = 0;
    while i < n
        invariant
            n == phdrs@.len(),
            i <= n,
            forall|k: int| 0 <= k < i ==> !phdr_is_wx(#[trigger] phdrs@[k]),
        decreases n - i,
    {
        let ph = &phdrs[i];
        if ph.p_type == PT_LOAD && ph.p_flags & PF_W != 0 && ph.p_flags & PF_X != 0 {
            return Err(BootError::WxViolation);
        }
        i += 1;
    }
    Ok(())
}

/// Parse the whole program-header table of a validated image.
pub fn parse_program_headers(data: &Vec<u8>, e_phoff: u64, e_phnum: u16) -> (r: Vec<Elf64Phdr>)
    requires
        e_phoff == spec_u64_le(data@, 32),
        e_phnum as int == spec_phnum(data@),
        spec_u64_le(data@, 32) + 56 * spec_phnum(data@) <= data@.len(),
    ensures
        r@.len() == spec_phnum(data@),
        forall|i: int| 0 <= i < r@.len() ==> r@[i] == spec_phdr_i(data@, i),
{
    let n = e_phnum as usize;
    let dn = data.len();
    let mut out: Vec<Elf64Phdr> = Vec::new();
    let mut i: usize = 0;
    while i < n
        invariant
            n == spec_phnum(data@),
            dn == data@.len(),
            e_phoff == spec_u64_le(data@, 32),
            spec_u64_le(data@, 32) + 56 * n <= data@.len(),
            i <= n,
            out@.len() == i,
            forall|k: int| 0 <= k < i ==> out@[k] == spec_phdr_i(data@, k),
        decreases n - i,
    {
        proof {
            assert(e_phoff + 56 * (i as int) + 56 <= dn);
        }
        let off = (e_phoff as usize) + i * PHDR_SIZE;
        let ph = read_phdr(data, off);
        proof {
            assert(off as int == phdr_off(data@, i as int));
            assert(ph == spec_phdr_i(data@, i as int));
        }
        out.push(ph);
        i += 1;
    }
    out
}

/// One byte past the highest physical byte of a placed segment, capped at
/// the top of the address space as the loader's saturating arithmetic is.
pub open spec fn seg_end(seg: LoadedSegment) -> int {
    if seg.phys_base + seg.size <= u64::MAX {
        seg.phys_base + seg.size
    } else {
        u64::MAX as int
    }
}

// ── Load planning ────────────────────────────────────────────────────────

/// The first `i` program headers of the image, keeping only loadable
/// segments with nonzero memory size, in file order.
pub open spec fn spec_load_segs(s: Seq<u8>, i: int) -> Seq<Elf64Phdr>
    decreases i,
{
    if i <= 0 {
        Seq::empty()
    } else {
        let r = spec_load_segs(s, i - 1);
        let ph = spec_phdr_i(s, i - 1);
        if ph.p_type == PT_LOAD && ph.p_memsz > 0 {
            r.push(ph)
        } else {
            r
        }
    }
}

/// Every loadable segment with nonzero memory size, in file order.
pub open spec fn kernel_segs(s: Seq<u8>) -> Seq<Elf64Phdr> {
    spec_load_segs(s, spec_phnum(s))
}

/// A shorter scan yields a prefix of a longer one.
proof fn lemma_load_segs_prefix(s: Seq<u8>, i: int, j: int)
    requires
        0 <= i <= j,
    ensures
        spec_load_segs(s, i).len() <= spec_load_segs(s, j).len(),
        forall|k: int| 0 <= k < spec_load_segs(s, i).len()
            ==> #[trigger] spec_load_segs(s, j)[k] == spec_load_segs(s, i)[k],
    decreases j - i,
{
    if i < j {
        lemma_load_segs_prefix(s, i, j - 1);
    }
}

/// A loadable program header with nonzero memory size appears in the scan
/// that includes it.
proof fn lemma_load_segs_member(s: Seq<u8>, i: int, j: int)
    requires
        0 <= i < j,
        spec_phdr_i(s, i).p_type == PT_LOAD,
        spec_phdr_i(s, i).p_memsz > 0,
    ensures
        exists|k: int| 0 <= k < spec_load_segs(s, j).len()
            && #[trigger] spec_load_segs(s, j)[k] == spec_phdr_i(s, i),
    decreases j - i,
{
    if j == i + 1 {
        assert(spec_load_segs(s, j).last() == spec_phdr_i(s, i));
    } else {
        lemma_load_segs_member(s, i, j - 1);
        let k = choose|k: int| 0 <= k < spec_load_segs(s, j - 1).len()
            && #[trigger] spec_load_segs(s, j - 1)[k] == spec_phdr_i(s, i);
        assert(spec_load_segs(s, j)[k] == spec_phdr_i(s, i));
    }
}

/// Every scanned segment is loadable with nonzero memory size and comes
/// from some program header of the image.
proof fn lemma_load_segs_props(s: Seq<u8>, i: int)
    ensures
        forall|k: int| 0 <= k < spec_load_segs(s, i).len() ==> {
            let ph = #[trigger] spec_load_segs(s, i)[k];
            &&& ph.p_type == PT_LOAD
            &&& ph.p_memsz > 0
            &&& exists|q: int| 0 <= q < i && spec_phdr_i(s, q) == ph
        },
    decreases i,
{
    if i > 0 {
        lemma_load_segs_props(s, i - 1);
        assert forall|k: int| 0 <= k < spec_load_segs(s, i).len() implies {
            let ph = #[trigger] spec_load_segs(s, i)[k];
            &&& ph.p_type == PT_LOAD
            &&& ph.p_memsz > 0
            &&& exists|q: int| 0 <= q < i && spec_phdr_i(s, q) == ph
        } by {
            let ph = spec_load_segs(s, i)[k];
            if k < spec_load_segs(s, i - 1).len() {
                assert(spec_load_segs(s, i - 1)[k] == ph);
                let q = choose|q: int| 0 <= q < i - 1 && spec_phdr_i(s, q)
                    == spec_load_segs(s, i - 1)[k];
                assert(0 <= q < i && spec_phdr_i(s, q) == ph);
            } else {
                assert(ph == spec_phdr_i(s, i - 1));
            }
        }
    }
}

/// What a planned segment demands of the file: the memory image at least
/// as large as the file image, and the file data inside the buffer.
pub open spec fn seg_ok(s: Seq<u8>, ph: Elf64Phdr) -> bool {
    &&& ph.p_memsz >= ph.p_filesz
    &&& (ph.p_filesz > 0 ==> ph.p_offset + ph.p_filesz <= s.len())
}

/// The image can be placed: it validates, no loadable segment is both
/// writable and executable, every loadable segment's file range lies in
/// the buffer with a consistent memory size, and the number of loadable
/// segments is between one and the loader's bound.
pub open spec fn kernel_loadable(s: Seq<u8>, expected_machine: u16) -> bool {
    &&& valid_elf64(s, expected_machine)
    &&& forall|i: int| 0 <= i < spec_phnum(s) ==> !phdr_is_wx(#[trigger] spec_phdr_i(s, i))
    &&& forall|k: int| 0 <= k < kernel_segs(s).len() ==> seg_ok(s, #[trigger] kernel_segs(s)[k])
    &&& kernel_segs(s).len() <= MAX_SEGMENTS
}

/// The placed form of a loadable program header.
pub open spec fn seg_of_phdr(ph: Elf64Phdr) -> LoadedSegment {
    LoadedSegment {
        phys_base: ph.p_paddr,
        virt_base: ph.p_vaddr,
        size: ph.p_memsz,
        writable: ph.p_flags & PF_W != 0,
        executable: ph.p_flags & PF_X != 0,
    }
}

/// Pages needed to hold `size` bytes.
pub open spec fn pages_u64(size: u64) -> u64 {
    ((size as int + 4095) / 4096) as u64
}

/// One copy-and-zero directive the caller carries out against firmware
/// memory for a planned segment.
#[derive(Clone, Copy, Debug, PartialEq, Eq, Structural)]
pub struct SegmentCopy {
    /// Physical base address the pages are allocated and copied to.
    pub dest_phys: u64,
    /// Byte offset of the segment data within the image file.
    pub file_off: u64,
    /// Number of bytes to copy from the file.
    pub file_sz: u64,
    /// Number of trailing bytes to zero after the copy (the BSS tail).
    pub zero_sz: u64,
    /// Number of 4 KiB pages to allocate at `dest_phys`.
    pub page_count: u64,
}

/// The copy directive of a loadable program header.
pub open spec fn copy_of_phdr(ph: Elf64Phdr) -> SegmentCopy {
    SegmentCopy {
        dest_phys: ph.p_paddr,
        file_off: ph.p_offset,
        file_sz: ph.p_filesz,
        zero_sz: (ph.p_memsz - ph.p_filesz) as u64,
        page_count: pages_u64(ph.p_memsz),
    }
}

/// The full kernel load plan: the summary the rest of the boot consumes,
/// and the copy directives that place each segment.
#[derive(Clone, Debug)]
pub struct KernelLoadPlan {
    /// Validated placement summary for the page-table builder and
    /// `BootInfo`.
    pub info: KernelInfo,
    /// Per-segment allocation, copy and zero directives, in segment order.
    pub copies: Vec<SegmentCopy>,
}

/// Lowest physical base among the placed segments.
pub open spec fn min_phys(segs: Seq<LoadedSegment>) -> u64
    decreases segs.len(),
{
    if segs.len() == 0 {
        u64::MAX
    } else {
        let m = min_phys(segs.drop_last());
        if segs.last().phys_base < m {
            segs.last().phys_base
        } else {
            m
        }
    }
}

/// Lowest virtual base among the placed segments.
pub open spec fn min_virt(segs: Seq<LoadedSegment>) -> u64
    decreases segs.len(),
{
    if segs.len() == 0 {
        u64::MAX
    } else {
        let m = min_virt(segs.drop_last());
        if segs.last().virt_base < m {
            segs.last().virt_base
        } else {
            m
        }
    }
}

/// Highest physical end among the placed segments, with the loader's
/// saturating addition.
pub open spec fn max_end(segs: Seq<LoadedSegment>) -> u64
    decreases segs.len(),
{
    if segs.len() == 0 {
        0
    } else {
        let m = max_end(segs.drop_last());
        let e = if segs.last().phys_base + segs.last().size <= u64::MAX {
            (segs.last().phys_base + segs.last().size) as u64
        } else {
            u64::MAX
        };
        if e > m {
            e
        } else {
            m
        }
    }
}

/// Number of pages needed to hold `size` bytes, rounded up.
pub fn pages_for_bytes(size: u64) -> (r: u64)
    ensures
        r == pages_u64(size),
        r as int == crate::paging::npages_spec(size),
{
    if size == 0 {
        0
    } else {
        proof {
            vstd::arithmetic::div_mod::lemma_div_plus_one(size as int - 1, 4096);
        }
        (size - 1) / 4096 + 1
    }
}

/// Plan the kernel ELF load.
///
/// Validates the image, enforces W^X across every loadable segment before
/// anything is planned, and computes for each loadable segment a fixed
/// placement at its ELF physical address together with the copy and
/// BSS-zero directives the caller performs. Up to [`MAX_SEGMENTS`]
/// segments are supported.
#[verifier::rlimit(80)]
pub fn load_kernel(data: &Vec<u8>, expected_machine: u16) -> (r: Result<KernelLoadPlan, BootError>)
    ensures
        r is Ok <==> kernel_loadable(data@, expected_machine),
        r matches Err(BootError::WxViolation) <==> (valid_elf64(data@, expected_machine)
            && exists|i: int| 0 <= i < spec_phnum(data@) && phdr_is_wx(
                #[trigger] spec_phdr_i(data@, i),
            )),
        r is Err ==> (r matches Err(BootError::WxViolation) || r matches Err(
            BootError::InvalidElf(_),
        )),
        r matches Ok(plan) ==> {
            let segs = kernel_segs(data@);
            &&& plan.info.wf()
            &&& plan.info.segments@.len() == segs.len()
            &&& plan.info.segment_count == segs.len()
            &&& forall|k: int| 0 <= k < segs.len() ==> plan.info.segments@[k] == seg_of_phdr(
                #[trigger] segs[k],
            )
            &&& plan.info.entry_virtual == spec_u64_le(data@, 24)
            &&& plan.info.physical_base == min_phys(plan.info.segments@)
            &&& plan.info.virtual_base == min_virt(plan.info.segments@)
            &&& plan.info.physical_base + plan.info.size == max_end(plan.info.segments@)
            &&& plan.copies@.len() == segs.len()
            &&& forall|k: int| 0 <= k < segs.len() ==> plan.copies@[k] == copy_of_phdr(
                #[trigger] segs[k],
            )
        },
{
    let ehdr = match validate_elf_header(data, expected_machine) {
        Ok(h) => h,
        Err(e) => {
            return Err(e);
        },
    };
    let phdrs = parse_program_headers(data, ehdr.e_phoff, ehdr.e_phnum);
    proof {
        assert forall|i: int| 0 <= i < spec_phnum(data@) implies phdrs@[i] == spec_phdr_i(
            data@,
            i,
        ) by {}
    }
    match check_wx_segments(&phdrs) {
        Ok(()) => {},
        Err(e) => {
            proof {
                let i = choose|i: int| 0 <= i < phdrs@.len() && phdr_is_wx(#[trigger] phdrs@[i]);
                assert(phdr_is_wx(spec_phdr_i(data@, i)));
            }
            return Err(e);
        },
    }
    let ghost s = data@;
    let ghost nph = spec_phnum(s);
    let dn = data.len();
    let n = ehdr.e_phnum as usize;
    let mut segments: Vec<LoadedSegment> = Vec::new();
    let mut copies: Vec<SegmentCopy> = Vec::new();
    let mut i: usize = 0;
    while i < n
        invariant
            s == data@,
            n == nph,
            nph == spec_phnum(s),
            dn == data@.len(),
            i <= n,
            valid_elf64(s, expected_machine),
            forall|q: int| 0 <= q < nph ==> !phdr_is_wx(#[trigger] spec_phdr_i(s, q)),
            forall|k: int| 0 <= k < nph ==> phdrs@[k] == spec_phdr_i(s, k),
            phdrs@.len() == nph,
            segments@.len() == spec_load_segs(s, i as int).len(),
            segments@.len() <= MAX_SEGMENTS,
            copies@.len() == segments@.len(),
            forall|k: int| 0 <= k < segments@.len() ==> segments@[k] == seg_of_phdr(
                #[trigger] spec_load_segs(s, i as int)[k],
            ),
            forall|k: int| 0 <= k < copies@.len() ==> copies@[k] == copy_of_phdr(
                #[trigger] spec_load_segs(s, i as int)[k],
            ),
            forall|k: int| 0 <= k < spec_load_segs(s, i as int).len() ==> seg_ok(
                s,
                #[trigger] spec_load_segs(s, i as int)[k],
            ),
        decreases n - i,
    {
        let ph = phdrs[i];
        proof {
            assert(spec_load_segs(s, i as int + 1) == if ph.p_type == PT_LOAD && ph.p_memsz > 0 {
                spec_load_segs(s, i as int).push(ph)
            } else {
                spec_load_segs(s, i as int)
            });
        }
        if ph.p_type == PT_LOAD && ph.p_memsz > 0 {
            if ph.p_memsz < ph.p_filesz {
                proof {
                    lemma_load_segs_prefix(s, i as int + 1, nph);
                    assert(kernel_segs(s)[spec_load_segs(s, i as int).len() as int] == ph);
                    assert(!seg_ok(s, ph));
                }
                return Err(BootError::InvalidElf("LOAD segment: p_memsz < p_filesz"));
            }
            if segments.len() >= MAX_SEGMENTS {
                proof {
                    lemma_load_segs_prefix(s, i as int + 1, nph);
                    assert(kernel_segs(s).len() > MAX_SEGMENTS);
                }
                return Err(BootError::InvalidElf("ELF has more than 8 LOAD segments"));
            }
            if ph.p_filesz > 0 {
                if ph.p_offset > u64::MAX - ph.p_filesz {
                    proof {
                        lemma_load_segs_prefix(s, i as int + 1, nph);
                        assert(kernel_segs(s)[spec_load_segs(s, i as int).len() as int] == ph);
                    }
                    return Err(BootError::InvalidElf("LOAD segment file range overflow"));
                }
                if ph.p_offset + ph.p_filesz > dn as u64 {
                    proof {
                        lemma_load_segs_prefix(s, i as int + 1, nph);
                        assert(kernel_segs(s)[spec_load_segs(s, i as int).len() as int] == ph);
                    }
                    return Err(
                        BootError::InvalidElf("LOAD segment file data extends beyond end of file"),
                    );
                }
            }
            let page_count = pages_for_bytes(ph.p_memsz);
            segments.push(LoadedSegment {
                phys_base: ph.p_paddr,
                virt_base: ph.p_vaddr,
                size: ph.p_memsz,
                writable: ph.p_flags & PF_W != 0,
                executable: ph.p_flags & PF_X != 0,
            });
            copies.push(SegmentCopy {
                dest_phys: ph.p_paddr,
                file_off: ph.p_offset,
                file_sz: ph.p_filesz,
                zero_sz: ph.p_memsz - ph.p_filesz,
                page_count,
            });
        }
        i += 1;
    }
    if segments.len() == 0 {
        proof {
            // unreachable: the validated entry address lies in some
            // loadable segment, so at least one was committed
            let w = choose|w: int| 0 <= w < nph && {
                let ph = #[trigger] spec_phdr_i(s, w);
                &&& ph.p_type == PT_LOAD
                &&& ph.p_memsz > 0
                &&& ph.p_vaddr <= spec_u64_le(s, 24)
                &&& spec_u64_le(s, 24) - ph.p_vaddr < ph.p_memsz
            };
            lemma_load_segs_member(s, w, nph);
            assert(false);
        }
        return Err(BootError::InvalidElf("ELF has no PT_LOAD segments with non-zero p_memsz"));
    }
    // The entry address must be covered by a committed segment; the
    // validation pass guarantees it, and the plan restates it.
    let entry_virtual = ehdr.e_entry;
    proof {
        let w = choose|w: int| 0 <= w < nph && {
            let ph = #[trigger] spec_phdr_i(s, w);
            &&& ph.p_type == PT_LOAD
            &&& ph.p_memsz > 0
            &&& ph.p_vaddr <= spec_u64_le(s, 24)
            &&& spec_u64_le(s, 24) - ph.p_vaddr < ph.p_memsz
        };
        lemma_load_segs_member(s, w, nph);
    }
    // Compute the physical and virtual bases and the physical span.
    let count = segments.len();
    let mut physical_base: u64 = u64::MAX;
    let mut virtual_base: u64 = u64::MAX;
    let mut phys_end: u64 = 0;
    let mut k: usize = 0;
    while k < count
        invariant
            count == segments@.len(),
            k <= count,
            physical_base == min_phys(segments@.take(k as int)),
            virtual_base == min_virt(segments@.take(k as int)),
            phys_end == max_end(segments@.take(k as int)),
        decreases count - k,
    {
        let seg = &segments[k];
        proof {
            assert(segments@.take(k as int + 1).drop_last() =~= segments@.take(k as int));
            assert(segments@.take(k as int + 1).last() == segments@[k as int]);
        }
        if seg.phys_base < physical_base {
            physical_base = seg.phys_base;
        }
        if seg.virt_base < virtual_base {
            virtual_base = seg.virt_base;
        }
        let end = if seg.size > u64::MAX - seg.phys_base {
            u64::MAX
        } else {
            seg.phys_base + seg.size
        };
        if end > phys_end {
            phys_end = end;
        }
        k += 1;
    }
    proof {
        assert(segments@.take(count as int) =~= segments@);
        lemma_min_phys_le_ends(segments@);
    }
    let size = phys_end - physical_base;
    let info = KernelInfo {
        physical_base,
        virtual_base,
        size,
        entry_virtual,
        segments,
        segment_count: count,
    };
    proof {
        lemma_min_phys_le(info.segments@);
        lemma_max_end_ge(info.segments@);
        lemma_load_segs_props(s, nph);
        assert forall|q2: int| 0 <= q2 < info.segments@.len() implies {
            &&& (#[trigger] info.segments@[q2]).size > 0
            &&& !(info.segments@[q2].writable && info.segments@[q2].executable)
        } by {
            let ph = kernel_segs(s)[q2];
            assert(info.segments@[q2] == seg_of_phdr(ph));
            let q = choose|q: int| 0 <= q < nph && spec_phdr_i(s, q) == ph;
            assert(!phdr_is_wx(spec_phdr_i(s, q)));
        }
        let w = choose|w: int| 0 <= w < nph && {
            let ph = #[trigger] spec_phdr_i(s, w);
            &&& ph.p_type == PT_LOAD
            &&& ph.p_memsz > 0
            &&& ph.p_vaddr <= spec_u64_le(s, 24)
            &&& spec_u64_le(s, 24) - ph.p_vaddr < ph.p_memsz
        };
        lemma_load_segs_member(s, w, nph);
        let kk = choose|kk: int| 0 <= kk < kernel_segs(s).len() && #[trigger] kernel_segs(s)[kk]
            == spec_phdr_i(s, w);
        assert(info.segments@[kk] == seg_of_phdr(spec_phdr_i(s, w)));
        assert(info.segments@[kk].virt_base <= info.entry_virtual
            && info.entry_virtual - info.segments@[kk].virt_base < info.segments@[kk].size);
        assert(info.wf());
    }
    Ok(KernelLoadPlan { info, copies })
}

/// Every segment's physical base is at least the minimum.
proof fn lemma_min_phys_le(segs: Seq<LoadedSegment>)
    ensures
        forall|i: int| 0 <= i < segs.len() ==> min_phys(segs) <= (#[trigger] segs[i]).phys_base,
        forall|i: int| 0 <= i < segs.len() ==> min_virt(segs) <= (#[trigger] segs[i]).virt_base,
    decreases segs.len(),
{
    if segs.len() > 0 {
        lemma_min_phys_le(segs.drop_last());
        assert forall|i: int| 0 <= i < segs.len() implies min_phys(segs) <= (
        #[trigger] segs[i]).phys_base by {
            if i < segs.len() - 1 {
                assert(segs.drop_last()[i] == segs[i]);
            }
        }
        assert forall|i: int| 0 <= i < segs.len() implies min_virt(segs) <= (
        #[trigger] segs[i]).virt_base by {
            if i < segs.len() - 1 {
                assert(segs.drop_last()[i] == segs[i]);
            }
        }
    }
}

/// Every segment ends at or before the maximum end.
proof fn lemma_max_end_ge(segs: Seq<LoadedSegment>)
    ensures
        forall|i: int| 0 <= i < segs.len() ==> seg_end(#[trigger] segs[i]) <= max_end(segs),
    decreases segs.len(),
{
    if segs.len() > 0 {
        lemma_max_end_ge(segs.drop_last());
        assert forall|i: int| 0 <= i < segs.len() implies seg_end(#[trigger] segs[i]) <= max_end(
            segs,
        ) by {
            if i < segs.len() - 1 {
                assert(segs.drop_last()[i] == segs[i]);
            }
        }
    }
}

/// The minimum base never exceeds the maximum end of a nonempty list.
proof fn lemma_min_phys_le_ends(segs: Seq<LoadedSegment>)
    requires
        segs.len() > 0,
    ensures
        min_phys(segs) <= max_end(segs),
    decreases segs.len(),
{
    lemma_min_phys_le(segs);
    lemma_max_end_ge(segs);
    assert(seg_end(segs[0]) >= segs[0].phys_base);
}

// ── Init load planning ───────────────────────────────────────────────────

/// The permission class of a loadable program header: executable wins,
/// then writable, else read-only. No class is both writable and
/// executable, so W^X holds for every planned init segment by
/// construction.
pub open spec fn segflags_of(ph: Elf64Phdr) -> crate::protocol::SegmentFlags {
    if ph.p_flags & PF_X != 0 {
        crate::protocol::SegmentFlags::ReadExecute
    } else if ph.p_flags & PF_W != 0 {
        crate::protocol::SegmentFlags::ReadWrite
    } else {
        crate::protocol::SegmentFlags::Read
    }
}

/// One planned init segment: everything except the physical address,
/// which the firmware chooses at allocation time.
#[derive(Clone, Copy, Debug, PartialEq, Eq, Structural)]
pub struct InitPlanSegment {
    /// ELF virtual address of the segment, preserved for the kernel.
    pub virt_addr: u64,
    /// Size of the segment in memory (`p_memsz`).
    pub size: u64,
    /// Permission class derived from the ELF flags.
    pub flags: crate::protocol::SegmentFlags,
    /// Byte offset of the segment data within the image file.
    pub file_off: u64,
    /// Number of bytes to copy from the file.
    pub file_sz: u64,
    /// Number of trailing bytes to zero after the copy.
    pub zero_sz: u64,
    /// Number of 4 KiB pages to allocate anywhere in memory.
    pub page_count: u64,
}

/// The planned form of a loadable program header of the init image.
pub open spec fn init_seg_of_phdr(ph: Elf64Phdr) -> InitPlanSegment {
    InitPlanSegment {
        virt_addr: ph.p_vaddr,
        size: ph.p_memsz,
        flags: segflags_of(ph),
        file_off: ph.p_offset,
        file_sz: ph.p_filesz,
        zero_sz: (ph.p_memsz - ph.p_filesz) as u64,
        page_count: pages_u64(ph.p_memsz),
    }
}

/// The init load plan: the entry point and the per-segment directives.
/// Unlike the kernel, init segments are placed at firmware-chosen
/// physical addresses; [`place_init_segments`] combines the plan with
/// those addresses into the final [`crate::protocol::InitImage`].
#[derive(Clone, Debug)]
pub struct InitLoadPlan {
    /// Virtual entry point of init (`e_entry` from the ELF header).
    pub entry_point: u64,
    /// Planned segments, in file order; at most [`MAX_SEGMENTS`].
    pub segments: Vec<InitPlanSegment>,
}

/// Plan the init ELF load.
///
/// Identical validation and W^X scan as the kernel path, but each
/// segment is to be allocated at any available physical address: the
/// ELF physical addresses of a userspace image point into low memory
/// that firmware already occupies. The ELF virtual address is preserved
/// so the kernel can construct init's address space without an ELF
/// parser of its own.
#[verifier::rlimit(80)]
pub fn load_init(data: &Vec<u8>, expected_machine: u16) -> (r: Result<InitLoadPlan, BootError>)
    ensures
        r is Ok <==> kernel_loadable(data@, expected_machine),
        r matches Err(BootError::WxViolation) <==> (valid_elf64(data@, expected_machine)
            && exists|i: int| 0 <= i < spec_phnum(data@) && phdr_is_wx(
                #[trigger] spec_phdr_i(data@, i),
            )),
        r is Err ==> (r matches Err(BootError::WxViolation) || r matches Err(
            BootError::InvalidElf(_),
        )),
        r matches Ok(plan) ==> {
            let segs = kernel_segs(data@);
            &&& plan.entry_point == spec_u64_le(data@, 24)
            &&& 1 <= plan.segments@.len() <= MAX_SEGMENTS
            &&& plan.segments@.len() == segs.len()
            &&& forall|k: int| 0 <= k < segs.len() ==> plan.segments@[k] == init_seg_of_phdr(
                #[trigger] segs[k],
            )
        },
{
    let ehdr = match validate_elf_header(data, expected_machine) {
        Ok(h) => h,
        Err(e) => {
            return Err(e);
        },
    };
    let phdrs = parse_program_headers(data, ehdr.e_phoff, ehdr.e_phnum);
    match check_wx_segments(&phdrs) {
        Ok(()) => {},
        Err(e) => {
            proof {
                let i = choose|i: int| 0 <= i < phdrs@.len() && phdr_is_wx(#[trigger] phdrs@[i]);
                assert(phdr_is_wx(spec_phdr_i(data@, i)));
            }
            return Err(e);
        },
    }
    let ghost s = data@;
    let ghost nph = spec_phnum(s);
    let dn = data.len();
    let n = ehdr.e_phnum as usize;
    let mut segments: Vec<InitPlanSegment> = Vec::new();
    let mut i: usize = 0;
    while i < n
        invariant
            s == data@,
            n == nph,
            nph == spec_phnum(s),
            dn == data@.len(),
            i <= n,
            valid_elf64(s, expected_machine),
            forall|q: int| 0 <= q < nph ==> !phdr_is_wx(#[trigger] spec_phdr_i(s, q)),
            forall|k: int| 0 <= k < nph ==> phdrs@[k] == spec_phdr_i(s, k),
            phdrs@.len() == nph,
            segments@.len() == spec_load_segs(s, i as int).len(),
            segments@.len() <= MAX_SEGMENTS,
            forall|k: int| 0 <= k < segments@.len() ==> segments@[k] == init_seg_of_phdr(
                #[trigger] spec_load_segs(s, i as int)[k],
            ),
            forall|k: int| 0 <= k < spec_load_segs(s, i as int).len() ==> seg_ok(
                s,
                #[trigger] spec_load_segs(s, i as int)[k],
            ),
        decreases n - i,
    {
        let ph = phdrs[i];
        proof {
            assert(spec_load_segs(s, i as int + 1) == if ph.p_type == PT_LOAD && ph.p_memsz > 0 {
                spec_load_segs(s, i as int).push(ph)
            } else {
                spec_load_segs(s, i as int)
            });
        }
        if ph.p_type == PT_LOAD && ph.p_memsz > 0 {
            if ph.p_memsz < ph.p_filesz {
                proof {
                    lemma_load_segs_prefix(s, i as int + 1, nph);
                    assert(kernel_segs(s)[spec_load_segs(s, i as int).len() as int] == ph);
                    assert(!seg_ok(s, ph));
                }
                return Err(BootError::InvalidElf("LOAD segment: p_memsz < p_filesz"));
            }
            if segments.len() >= MAX_SEGMENTS {
                proof {
                    lemma_load_segs_prefix(s, i as int + 1, nph);
                    assert(kernel_segs(s).len() > MAX_SEGMENTS);
                }
                return Err(
                    BootError::InvalidElf("init ELF has more than INIT_MAX_SEGMENTS LOAD segments"),
                );
            }
            if ph.p_filesz > 0 {
                if ph.p_offset > u64::MAX - ph.p_filesz {
                    proof {
                        lemma_load_segs_prefix(s, i as int + 1, nph);
                        assert(kernel_segs(s)[spec_load_segs(s, i as int).len() as int] == ph);
                    }
                    return Err(BootError::InvalidElf("LOAD segment file range overflow"));
                }
                if ph.p_offset + ph.p_filesz > dn as u64 {
                    proof {
                        lemma_load_segs_prefix(s, i as int + 1, nph);
                        assert(kernel_segs(s)[spec_load_segs(s, i as int).len() as int] == ph);
                    }
                    return Err(
                        BootError::InvalidElf("LOAD segment file data extends beyond end of file"),
                    );
                }
            }
            let flags = if ph.p_flags & PF_X != 0 {
                crate::protocol::SegmentFlags::ReadExecute
            } else if ph.p_flags & PF_W != 0 {
                crate::protocol::SegmentFlags::ReadWrite
            } else {
                crate::protocol::SegmentFlags::Read
            };
            let page_count = pages_for_bytes(ph.p_memsz);
            segments.push(InitPlanSegment {
                virt_addr: ph.p_vaddr,
                size: ph.p_memsz,
                flags,
                file_off: ph.p_offset,
                file_sz: ph.p_filesz,
                zero_sz: ph.p_memsz - ph.p_filesz,
                page_count,
            });
        }
        i += 1;
    }
    if segments.len() == 0 {
        proof {
            // unreachable, as in the kernel path: the entry's segment
            // was committed
            let w = choose|w: int| 0 <= w < nph && {
                let ph = #[trigger] spec_phdr_i(s, w);
                &&& ph.p_type == PT_LOAD
                &&& ph.p_memsz > 0
                &&& ph.p_vaddr <= spec_u64_le(s, 24)
                &&& spec_u64_le(s, 24) - ph.p_vaddr < ph.p_memsz
            };
            lemma_load_segs_member(s, w, nph);
            assert(false);
        }
        return Err(BootError::InvalidElf("init ELF has no PT_LOAD segments"));
    }
    Ok(InitLoadPlan { entry_point: ehdr.e_entry, segments })
}

/// Combine an init load plan with the firmware-chosen physical address
/// of each segment into the final [`crate::protocol::InitImage`].
///
/// The `k`-th address places the `k`-th planned segment; the ELF virtual
/// address, size and permission class carry over unchanged.
pub fn place_init_segments(plan: &InitLoadPlan, phys_addrs: &Vec<u64>) -> (r: crate::protocol::InitImage)
    requires
        phys_addrs@.len() == plan.segments@.len(),
        1 <= plan.segments@.len() <= MAX_SEGMENTS,
    ensures
        r.wf(),
        r.entry_point == plan.entry_point,
        r.segment_count == plan.segments@.len(),
        r.segments@.len() == plan.segments@.len(),
        forall|k: int| 0 <= k < plan.segments@.len()
            ==> #[trigger] r.segments@[k] == (crate::protocol::InitSegment {
                phys_addr: phys_addrs@[k],
                virt_addr: plan.segments@[k].virt_addr,
                size: plan.segments@[k].size,
                flags: plan.segments@[k].flags,
            }),
{
    let n = plan.segments.len();
    let mut segments: Vec<crate::protocol::InitSegment> = Vec::new();
    let mut k: usize = 0;
    while k < n
        invariant
            n == plan.segments@.len(),
            phys_addrs@.len() == n,
            k <= n,
            segments@.len() == k,
            forall|q: int| 0 <= q < k ==> #[trigger] segments@[q]
                == (crate::protocol::InitSegment {
                phys_addr: phys_addrs@[q],
                virt_addr: plan.segments@[q].virt_addr,
                size: plan.segments@[q].size,
                flags: plan.segments@[q].flags,
            }),
        decreases n - k,
    {
        let ps = &plan.segments[k];
        segments.push(crate::protocol::InitSegment {
            phys_addr: phys_addrs[k],
            virt_addr: ps.virt_addr,
            size: ps.size,
            flags: ps.flags,
        });
        k += 1;
    }
    crate::protocol::InitImage {
        entry_point: plan.entry_point,
        segments,
        segment_count: n as u32,
    }
}

} // verus!
